//! What the two screens show.
//!
//! The default surface is a readout of the eight knobs, four per screen, plus a header naming the
//! device and the pad channel. It exists so the screens are informative rather than dark; the
//! layout deliberately stays simple, because every redraw competes with input for USB bandwidth.
use crate::config::Config;
use crate::display::font::Font;
use crate::display::{
    centred, col, inside, law_places_are_pixels, lemma_drawn_trans, plain, rgb_of, row, total_length, with_centred,
    with_outline, with_rect, with_text, Frame, Line, H, PIXELS, W,
};
use crate::engine::{byte_at, Outputs, OutputsView};
use crate::hid::KNOBS;
use crate::text::{dec, law_decimal_reads_back, push_dec, read_uint, same};
use vstd::prelude::*;

verus! {

/// Page background.
pub const BG: u16 = 0x0841;

/// Header background.
pub const HEADER: u16 = 0x18c4;

/// Primary text.
pub const FG: u16 = 0xef5e;

/// Secondary text.
pub const MUTED: u16 = 0x7bf0;

/// Filled part of a value bar, and the startup card's first line.
pub const BAR: u16 = 0xfc40;

/// Empty part of a value bar.
pub const BAR_BG: u16 = 0x2946;

/// Divider between knob cells.
pub const RULE: u16 = 0x3187;

/// The startup card's second line.
pub const CARD: u16 = 0xa535;

/// The colours are these.
pub proof fn law_colours()
    ensures
        BG == rgb_of(8, 8, 10),
        HEADER == rgb_of(24, 26, 32),
        FG == rgb_of(235, 235, 240),
        MUTED == rgb_of(120, 124, 134),
        BAR == rgb_of(255, 138, 0),
        BAR_BG == rgb_of(40, 42, 48),
        RULE == rgb_of(48, 50, 58),
        CARD == rgb_of(160, 164, 174),
{
}

/// Height of the header strip.
pub const HEADER_H: usize = 26;

/// Width of one knob cell.
pub const CELL_W: usize = 120;

/// The two fonts of the surface.
pub struct Fonts {
    pub small: Font,
    pub large: Font,
}

impl Fonts {
    /// Glyphs for the places that the surface has for them: the number of a knob stays between the
    /// rules of its cell and is at most 22 rows high, and what is above it ends above it.
    pub open spec fn fit(self) -> bool {
        &&& self.small.w <= 0x1_0000
        &&& self.small.h <= 26
        &&& self.large.w <= 39
        &&& self.large.h <= 22
    }
}

/// A number, right-aligned to three places.
pub open spec fn right_aligned(v: u8) -> Seq<char> {
    if v < 10 {
        "  "@ + dec(v as nat)
    } else if v < 100 {
        " "@ + dec(v as nat)
    } else {
        dec(v as nat)
    }
}

proof fn lemma_dec_short(v: u8)
    ensures
        dec(v as nat).len() <= 3,
        v < 100 ==> dec(v as nat).len() <= 2,
        v < 10 ==> dec(v as nat).len() == 1,
{
    reveal_with_fuel(dec, 4);
}

// The pictures.

/// The title of a screen: the configured one on the left, the channels on the right.
pub open spec fn title_of(cfg: Config, screen: int) -> Seq<char> {
    if screen == 0 {
        cfg.display.title@
    } else {
        "PADS CH "@ + dec(cfg.pads.channel as nat) + "  KNOBS CH "@ + dec(cfg.knobs.channel as nat)
    }
}

/// A screen with nothing but its header and the rules between the cells.
pub open spec fn header_picture(cfg: Config, fonts: Fonts, screen: int) -> Seq<u16> {
    let strip = with_rect(plain(BG), 0, 0, W as int, HEADER_H as int, HEADER);
    let title = with_text(
        strip,
        Line { x: 10, y: 5, font: fonts.small, scale: 1, text: title_of(cfg, screen) },
        FG,
    );
    let rule = H - HEADER_H;
    with_rect(
        with_rect(
            with_rect(title, CELL_W as int, HEADER_H as int, 1, rule, RULE),
            2 * CELL_W,
            HEADER_H as int,
            1,
            rule,
            RULE,
        ),
        3 * CELL_W,
        HEADER_H as int,
        1,
        rule,
        RULE,
    )
}

/// How far the value bar of a knob is filled.
pub open spec fn bar_fill(value: u8) -> int {
    (94 * value) / 127
}

/// How much of the bar inside its outline is filled.
pub open spec fn inner_fill(value: u8) -> int {
    if bar_fill(value) < 1 {
        0
    } else if bar_fill(value) > 93 {
        92
    } else {
        bar_fill(value) - 1
    }
}

/// The number of a knob's cell.
pub open spec fn number_line(fonts: Fonts, k: int, value: u8) -> Line {
    Line {
        x: centred((k % 4) * CELL_W + 1, CELL_W - 2, fonts.large, 1, right_aligned(value)),
        y: 60,
        font: fonts.large,
        scale: 1,
        text: right_aligned(value),
    }
}

/// A screen after the cell of knob `k` was drawn but for its value: the CC number, and the outline
/// of the bar.
pub open spec fn cell_picture(px: Seq<u16>, cfg: Config, fonts: Fonts, k: int) -> Seq<u16> {
    let x = (k % 4) * CELL_W + 1;
    let w = CELL_W - 2;
    let cell = with_rect(px, x, HEADER_H as int, w, 222, BG);
    let name = with_centred(
        cell,
        x,
        w,
        34,
        fonts.small,
        1,
        MUTED,
        "CC "@ + dec(byte_at(cfg.knobs.ccs@, k) as nat),
    );
    with_outline(name, x + 12, 222, 94, 12, RULE)
}

/// A screen after the value of knob `k` was drawn into its cell: the number, and the bar.
pub open spec fn value_picture(px: Seq<u16>, fonts: Fonts, k: int, value: u8) -> Seq<u16> {
    let x = (k % 4) * CELL_W + 1;
    let area = with_rect(px, x, 60, CELL_W - 2, fonts.large.h as int, BG);
    let number = with_text(area, number_line(fonts, k, value), FG);
    let empty = with_rect(number, x + 13, 223, 92, 10, BAR_BG);
    with_rect(empty, x + 13, 223, inner_fill(value), 10, BAR)
}

/// A screen after the whole cell of knob `k` was drawn.
pub open spec fn knob_picture(
    px: Seq<u16>,
    cfg: Config,
    fonts: Fonts,
    k: int,
    value: u8,
) -> Seq<u16> {
    value_picture(cell_picture(px, cfg, fonts, k), fonts, k, value)
}

/// The rows that are drawn for a knob: those of its cell, or those of its number and of the inside
/// of its bar.
pub open spec fn knob_rows(fonts: Fonts, whole: bool, y: int) -> bool {
    if whole {
        HEADER_H <= y < HEADER_H + 222
    } else {
        60 <= y < 60 + fonts.large.h || 223 <= y < 233
    }
}

/// The right screen after the status line was drawn.
pub open spec fn status_picture(px: Seq<u16>, fonts: Fonts, status: Seq<char>) -> Seq<u16> {
    with_text(
        with_rect(px, 0, 252, W as int, 20, BG),
        Line { x: 10, y: 254, font: fonts.small, scale: 1, text: status },
        MUTED,
    )
}

/// The startup card.
pub open spec fn card_picture(fonts: Fonts, line1: Seq<char>, line2: Seq<char>) -> Seq<u16> {
    with_centred(
        with_centred(plain(BG), 0, W as int, 96, fonts.large, 1, BAR, line1),
        0,
        W as int,
        144,
        fonts.small,
        1,
        CARD,
        line2,
    )
}

/// The value that is shown for a knob.
pub open spec fn shown_value(out: OutputsView, k: int) -> u8 {
    if out.knobs[k] < 127 {
        out.knobs[k]
    } else {
        127
    }
}

/// What a surface knows of the screens.
pub struct SurfaceState {
    /// The value last drawn for each knob.
    pub last: Seq<u8>,
    /// Whether any were.
    pub last_valid: bool,
    /// The CC number last drawn for each knob.
    pub named: Seq<u8>,
    /// Whether the header of each screen is drawn.
    pub header_drawn: Seq<bool>,
    /// The status line.
    pub status: Seq<char>,
    /// Whether it is drawn.
    pub status_drawn: bool,
}

impl SurfaceState {
    /// Whether the whole cell of knob `k` has to be drawn.
    pub open spec fn bare(self, cfg: Config, k: int) -> bool {
        !self.last_valid || self.named[k] != byte_at(cfg.knobs.ccs@, k)
    }

    /// Whether knob `k` has to be drawn again: its CC number or its value is not the one shown.
    pub open spec fn stale(self, cfg: Config, out: OutputsView, k: int) -> bool {
        self.bare(cfg, k) || self.last[k] != shown_value(out, k)
    }

    /// A screen after its header was drawn, where that was missing.
    pub open spec fn headed(
        self,
        px: Seq<u16>,
        cfg: Config,
        fonts: Fonts,
        screen: int,
    ) -> Seq<u16> {
        if self.header_drawn[screen] {
            px
        } else {
            header_picture(cfg, fonts, screen)
        }
    }

    /// A screen after those of the knobs `from..n` were drawn that have to be.
    pub open spec fn with_knobs(
        self,
        px: Seq<u16>,
        cfg: Config,
        out: OutputsView,
        fonts: Fonts,
        from: int,
        n: int,
    ) -> Seq<u16>
        decreases n - from,
    {
        if n <= from {
            px
        } else {
            let rest = self.with_knobs(px, cfg, out, fonts, from, n - 1);
            if !self.stale(cfg, out, n - 1) {
                rest
            } else if self.bare(cfg, n - 1) {
                knob_picture(rest, cfg, fonts, n - 1, shown_value(out, n - 1))
            } else {
                value_picture(rest, fonts, n - 1, shown_value(out, n - 1))
            }
        }
    }

    /// The left screen after an update.
    pub open spec fn left(
        self,
        px: Seq<u16>,
        cfg: Config,
        out: OutputsView,
        fonts: Fonts,
    ) -> Seq<u16> {
        self.with_knobs(self.headed(px, cfg, fonts, 0), cfg, out, fonts, 0, 4)
    }

    /// The right screen after an update.
    pub open spec fn right(
        self,
        px: Seq<u16>,
        cfg: Config,
        out: OutputsView,
        fonts: Fonts,
    ) -> Seq<u16> {
        let knobs = self.with_knobs(
            self.headed(px, cfg, fonts, 1),
            cfg,
            out,
            fonts,
            4,
            KNOBS as int,
        );
        if self.status_drawn {
            knobs
        } else {
            status_picture(knobs, fonts, self.status)
        }
    }

    /// What is known after an update: everything is drawn.
    pub open spec fn updated(self, cfg: Config, out: OutputsView) -> SurfaceState {
        SurfaceState {
            last: Seq::new(KNOBS as nat, |k: int| shown_value(out, k)),
            last_valid: true,
            named: Seq::new(KNOBS as nat, |k: int| byte_at(cfg.knobs.ccs@, k)),
            header_drawn: seq![true, true],
            status: self.status,
            status_drawn: true,
        }
    }

    /// Whether the left screen has to be drawn on.
    pub open spec fn left_stale(self, cfg: Config, out: OutputsView) -> bool {
        !self.header_drawn[0] || exists|k: int| 0 <= k < 4 && #[trigger] self.stale(cfg, out, k)
    }

    /// Whether the right screen has to be drawn on.
    pub open spec fn right_stale(self, cfg: Config, out: OutputsView) -> bool {
        ||| !self.header_drawn[1]
        ||| exists|k: int| 4 <= k < KNOBS && #[trigger] self.stale(cfg, out, k)
        ||| !self.status_drawn
    }

    /// Whether row `y` is drawn for one of the knobs `from..n`.
    pub open spec fn draws_knobs(
        self,
        cfg: Config,
        out: OutputsView,
        fonts: Fonts,
        from: int,
        n: int,
        y: int,
    ) -> bool {
        exists|k: int|
            from <= k < n && #[trigger] self.stale(cfg, out, k) && knob_rows(
                fonts,
                self.bare(cfg, k),
                y,
            )
    }

    /// Whether an update draws on row `y` of the left screen.
    pub open spec fn draws_left(
        self,
        cfg: Config,
        out: OutputsView,
        fonts: Fonts,
        y: int,
    ) -> bool {
        !self.header_drawn[0] || self.draws_knobs(cfg, out, fonts, 0, 4, y)
    }

    /// Whether an update draws on row `y` of the right screen.
    pub open spec fn draws_right(
        self,
        cfg: Config,
        out: OutputsView,
        fonts: Fonts,
        y: int,
    ) -> bool {
        ||| !self.header_drawn[1]
        ||| self.draws_knobs(cfg, out, fonts, 4, KNOBS as int, y)
        ||| !self.status_drawn && 252 <= y
    }
}

/// A line of text has ink in its own rows and columns only.
proof fn lemma_line_bounds(t: Line, px: int, py: int)
    requires
        t.scale == 1,
        t.covers(px, py),
    ensures
        t.y <= py < t.y + t.font.h,
        t.x <= px < t.x + t.text.len() * t.font.w,
{
    let (i, gx, gy) = choose|i: int, gx: int, gy: int| #[trigger] t.inks(i, gx, gy, px, py);
    let (w, n) = (t.font.w as int, t.text.len() as int);
    assert(t.advance() == w);
    assert(gx * t.scale == gx && gy * t.scale == gy);
    assert(0 <= i * w && i * w + w <= n * w) by (nonlinear_arith)
        requires
            0 <= i < n,
            0 <= w,
    ;
}

proof fn lemma_inked_rows(t: Line, y: int)
    requires
        t.scale == 1,
        t.inks_row(y),
    ensures
        t.y <= y < t.y + t.font.h,
{
    let px = choose|px: int| 0 <= px < W && #[trigger] t.covers(px, y);
    lemma_line_bounds(t, px, y);
}

/// The number of a knob lies in its cell.
proof fn lemma_number_bounds(fonts: Fonts, k: int, value: u8, px: int, py: int)
    requires
        fonts.fit(),
        value <= 127,
        number_line(fonts, k, value).covers(px, py),
    ensures
        60 <= py < 60 + fonts.large.h,
        (k % 4) * CELL_W + 1 <= px < (k % 4) * CELL_W + 1 + (CELL_W - 2),
{
    let t = number_line(fonts, k, value);
    lemma_line_bounds(t, px, py);
    lemma_right_aligned(value);
    let w = fonts.large.w as int;
    assert(t.text.len() * w * 1 == 3 * w);
}

proof fn lemma_right_aligned(value: u8)
    requires
        value <= 127,
    ensures
        right_aligned(value).len() == 3,
{
    reveal_strlit("  ");
    reveal_strlit(" ");
    reveal_with_fuel(dec, 4);
}

/// A value drawn over another leaves no trace of it: the cell is what drawing all of it gives.
pub proof fn law_values_are_redrawn_whole(
    px: Seq<u16>,
    cfg: Config,
    fonts: Fonts,
    k: int,
    a: u8,
    b: u8,
)
    requires
        fonts.fit(),
        0 <= k < KNOBS,
        a <= 127,
        b <= 127,
    ensures
        value_picture(knob_picture(px, cfg, fonts, k, a), fonts, k, b) == knob_picture(
            px,
            cfg,
            fonts,
            k,
            b,
        ),
{
    let cell = cell_picture(px, cfg, fonts, k);
    let one = value_picture(cell, fonts, k, a);
    let two = value_picture(one, fonts, k, b);
    let direct = value_picture(cell, fonts, k, b);
    let x = (k % 4) * CELL_W + 1;
    let ta = number_line(fonts, k, a);
    assert forall|i: int| 0 <= i < PIXELS implies #[trigger] two[i] == direct[i] by {
        if ta.covers(col(i), row(i)) {
            lemma_number_bounds(fonts, k, a, col(i), row(i));
            assert(inside(i, x, 60, CELL_W - 2, fonts.large.h as int));
        }
    }
    assert(two =~= direct);
}

/// Renders the default surface and tracks what it last drew.
pub struct Surface {
    last: [u8; KNOBS],
    last_valid: bool,
    named: [u8; KNOBS],
    header_drawn: [bool; 2],
    status: String,
    status_drawn: bool,
}

impl View for Surface {
    type V = SurfaceState;

    closed spec fn view(&self) -> SurfaceState {
        SurfaceState {
            last: self.last@,
            last_valid: self.last_valid,
            named: self.named@,
            header_drawn: self.header_drawn@,
            status: self.status@,
            status_drawn: self.status_drawn,
        }
    }
}

fn draw_header(frame: &mut Frame, fonts: &Fonts, title: &str, Ghost(before): Ghost<Frame>)
    requires
        old(frame).wf(),
        fonts.fit(),
        before.drawn(*old(frame)),
    ensures
        forall|cfg: Config, screen: int|
            title@ == #[trigger] title_of(cfg, screen) ==> final(frame).picture()
                == header_picture(cfg, *fonts, screen),
        before.drawn(*final(frame)),
        final(frame).all_dirty(),
{
    let ghost f0 = *frame;
    frame.clear(BG);
    let ghost f1 = *frame;
    frame.rect(0, 0, W, HEADER_H, HEADER);
    let ghost f2 = *frame;
    frame.text(10, 5, &fonts.small, 1, FG, title);
    let ghost f3 = *frame;
    frame.rect(CELL_W, HEADER_H, 1, H - HEADER_H, RULE);
    let ghost f4 = *frame;
    frame.rect(2 * CELL_W, HEADER_H, 1, H - HEADER_H, RULE);
    let ghost f5 = *frame;
    frame.rect(3 * CELL_W, HEADER_H, 1, H - HEADER_H, RULE);
    proof {
        lemma_drawn_trans(before, f0, f1);
        lemma_drawn_trans(before, f1, f2);
        lemma_drawn_trans(before, f2, f3);
        lemma_drawn_trans(before, f3, f4);
        lemma_drawn_trans(before, f4, f5);
        lemma_drawn_trans(before, f5, *frame);
    }
}

fn draw_cell(frame: &mut Frame, cfg: &Config, fonts: &Fonts, k: usize)
    requires
        old(frame).wf(),
        fonts.fit(),
        k < KNOBS,
    ensures
        final(frame).picture() == cell_picture(old(frame).picture(), *cfg, *fonts, k as int),
        old(frame).drawn(*final(frame)),
        final(frame).marked(*old(frame), HEADER_H as int, HEADER_H + 222),
{
    let x: usize = (k % 4) * CELL_W + 1;
    let w: usize = CELL_W - 2;
    let ghost f0 = *frame;
    frame.rect(x, HEADER_H, w, H - HEADER_H - 24, BG);
    let ghost f1 = *frame;
    let cc: u8 = cc_of(cfg, k);
    let mut name = "CC ".to_owned();
    push_dec(&mut name, cc as u64);
    proof {
        reveal_strlit("CC ");
        lemma_dec_short(cc);
        let (a, b) = (fonts.small.w as int, name@.len() as int);
        assert(b * a <= 6 * 0x1_0000) by (nonlinear_arith)
            requires
                0 <= a <= 0x1_0000,
                0 <= b <= 6,
        ;
        assert(b * a * 1 == b * a);
    }
    frame.text_centred(x, w, HEADER_H + 8, &fonts.small, 1, MUTED, name.as_str());
    let ghost f2 = *frame;
    frame.frame_rect(x + 12, 222, w - 24, 12, RULE);
    proof {
        lemma_drawn_trans(f0, f1, f2);
        lemma_drawn_trans(f0, f2, *frame);
        let t = Line {
            x: centred(x as int, w as int, fonts.small, 1, name@),
            y: 34,
            font: fonts.small,
            scale: 1,
            text: name@,
        };
        assert forall|y: int| 0 <= y < H implies #[trigger] frame.dirty(y) == (f0.dirty(y) || 26
            <= y < 248) by {
            assert(f1.dirty(y) == (f0.dirty(y) || 26 <= y < 248));
            assert(f2.dirty(y) == (f1.dirty(y) || t.inks_row(y)));
            if t.inks_row(y) {
                lemma_inked_rows(t, y);
            }
        }
    }
}

/// The CC number of a knob.
fn cc_of(cfg: &Config, k: usize) -> (r: u8)
    ensures
        r == byte_at(cfg.knobs.ccs@, k as int),
{
    if k < cfg.knobs.ccs.len() {
        cfg.knobs.ccs[k]
    } else {
        0
    }
}

fn draw_value(frame: &mut Frame, fonts: &Fonts, k: usize, value: u8)
    requires
        old(frame).wf(),
        fonts.fit(),
        k < KNOBS,
        value <= 127,
    ensures
        final(frame).picture() == value_picture(old(frame).picture(), *fonts, k as int, value),
        old(frame).drawn(*final(frame)),
        forall|y: int|
            0 <= y < H ==> #[trigger] final(frame).dirty(y) == (old(frame).dirty(y) || knob_rows(
                *fonts,
                false,
                y,
            )),
{
    let x: usize = (k % 4) * CELL_W + 1;
    let w: usize = CELL_W - 2;
    let ghost f0 = *frame;
    frame.rect(x, 60, w, fonts.large.h, BG);
    let ghost f1 = *frame;
    let mut number = String::new();
    if value < 10 {
        number.append("  ");
    } else if value < 100 {
        number.append(" ");
    }
    push_dec(&mut number, value as u64);
    proof {
        assert(number@ =~= right_aligned(value));
        lemma_right_aligned(value);
        let a = fonts.large.w as int;
        assert(number@.len() * a * 1 == 3 * a);
    }
    frame.text_centred(x, w, 60, &fonts.large, 1, FG, number.as_str());
    let ghost f2 = *frame;
    // The bar along the bottom of the cell.
    frame.rect(x + 13, 223, 92, 10, BAR_BG);
    let ghost f3 = *frame;
    let fill: usize = (94 * value as usize) / 127;
    let inner: usize = if fill < 1 {
        0
    } else if fill > 93 {
        92
    } else {
        fill - 1
    };
    frame.rect(x + 13, 223, inner, 10, BAR);
    proof {
        lemma_drawn_trans(f0, f1, f2);
        lemma_drawn_trans(f0, f2, f3);
        lemma_drawn_trans(f0, f3, *frame);
        let t = number_line(*fonts, k as int, value);
        assert forall|y: int| 0 <= y < H implies #[trigger] frame.dirty(y) == (f0.dirty(y)
            || knob_rows(*fonts, false, y)) by {
            assert(f1.dirty(y) == (f0.dirty(y) || 60 <= y < 60 + fonts.large.h));
            assert(f2.dirty(y) == (f1.dirty(y) || t.inks_row(y)));
            assert(f3.dirty(y) == (f2.dirty(y) || 223 <= y < 233));
            if t.inks_row(y) {
                lemma_inked_rows(t, y);
            }
        }
    }
}

/// Draws what has to be drawn of a knob: its whole cell, or the value in it.
fn draw_knob(
    frame: &mut Frame,
    cfg: &Config,
    fonts: &Fonts,
    k: usize,
    value: u8,
    whole: bool,
    Ghost(before): Ghost<Frame>,
)
    requires
        old(frame).wf(),
        fonts.fit(),
        k < KNOBS,
        value <= 127,
        before.drawn(*old(frame)),
    ensures
        final(frame).picture() == if whole {
            knob_picture(old(frame).picture(), *cfg, *fonts, k as int, value)
        } else {
            value_picture(old(frame).picture(), *fonts, k as int, value)
        },
        before.drawn(*final(frame)),
        forall|y: int|
            0 <= y < H ==> #[trigger] final(frame).dirty(y) == (old(frame).dirty(y) || knob_rows(
                *fonts,
                whole,
                y,
            )),
{
    let ghost f0 = *frame;
    if whole {
        draw_cell(frame, cfg, fonts, k);
        proof {
            lemma_drawn_trans(before, f0, *frame);
        }
    }
    let ghost f1 = *frame;
    draw_value(frame, fonts, k, value);
    proof {
        lemma_drawn_trans(before, f1, *frame);
        assert forall|y: int| 0 <= y < H implies #[trigger] frame.dirty(y) == (f0.dirty(y)
            || knob_rows(*fonts, whole, y)) by {
            assert(f1.dirty(y) == (f0.dirty(y) || (whole && knob_rows(*fonts, true, y))));
        }
    }
}

impl Surface {
    /// A surface that will paint everything on its first update.
    pub fn new() -> (r: Self)
        ensures
            !r@.last_valid,
            r@.header_drawn == seq![false, false],
            r@.status.len() == 0,
            !r@.status_drawn,
            r@.last == Seq::new(KNOBS as nat, |k: int| 255u8),
            r@.named == Seq::new(KNOBS as nat, |k: int| 255u8),
    {
        let r = Surface {
            last: [255; KNOBS],
            last_valid: false,
            named: [255; KNOBS],
            header_drawn: [false; 2],
            status: String::new(),
            status_drawn: false,
        };
        assert(r.header_drawn@ =~= seq![false, false]);
        assert(r.last@ =~= Seq::new(KNOBS as nat, |k: int| 255u8));
        assert(r.named@ =~= Seq::new(KNOBS as nat, |k: int| 255u8));
        r
    }

    /// Force a full repaint, after a config reload or a device reset.
    pub fn invalidate(&mut self)
        ensures
            final(self)@ == (SurfaceState {
                last_valid: false,
                header_drawn: seq![false, false],
                status_drawn: false,
                ..old(self)@
            }),
    {
        self.last_valid = false;
        self.header_drawn = [false; 2];
        self.status_drawn = false;
        assert(self.header_drawn@ =~= seq![false, false]);
    }

    /// Replace the status line shown at the bottom of the right screen.
    pub fn set_status(&mut self, s: &str)
        ensures
            final(self)@ == (SurfaceState {
                status: s@,
                status_drawn: old(self)@.status_drawn && old(self)@.status == s@,
                ..old(self)@
            }),
    {
        if !same(self.status.as_str(), s) {
            self.status = s.to_owned();
            self.status_drawn = false;
        }
    }

    /// Redraw whatever changed. `left` and `right` are only dirtied where needed.
    ///
    /// Driven by what the engine last transmitted, not by raw hardware readings: the knobs are
    /// endless and their raw position rolls over, so a meter drawn from it would wrap while the
    /// MIDI value it claims to show stays pinned at the end.
    pub fn update(
        &mut self,
        cfg: &Config,
        out: &Outputs,
        fonts: &Fonts,
        left: &mut Frame,
        right: &mut Frame,
    )
        requires
            old(left).wf(),
            old(right).wf(),
            fonts.fit(),
        ensures
            final(self)@ == old(self)@.updated(*cfg, out@),
            final(left).picture() == old(self)@.left(old(left).picture(), *cfg, out@, *fonts),
            final(right).picture() == old(self)@.right(old(right).picture(), *cfg, out@, *fonts),
            old(left).drawn(*final(left)),
            old(right).drawn(*final(right)),
            forall|y: int|
                0 <= y < H ==> #[trigger] final(left).dirty(y) == (old(left).dirty(y) || old(
                    self,
                )@.draws_left(*cfg, out@, *fonts, y)),
            forall|y: int|
                0 <= y < H ==> #[trigger] final(right).dirty(y) == (old(right).dirty(y) || old(
                    self,
                )@.draws_right(*cfg, out@, *fonts, y)),
            !old(self)@.left_stale(*cfg, out@) ==> *final(left) == *old(left),
            !old(self)@.right_stale(*cfg, out@) ==> *final(right) == *old(right),
    {
        let ghost st = self@;
        let ghost (l0, r0) = (*left, *right);
        if !self.header_drawn[0] {
            draw_header(left, fonts, cfg.display.title.as_str(), Ghost(l0));
            assert(title_of(*cfg, 0) == cfg.display.title@);
            self.header_drawn[0] = true;
        }
        if !self.header_drawn[1] {
            let mut title = "PADS CH ".to_owned();
            push_dec(&mut title, cfg.pads.channel as u64);
            title.append("  KNOBS CH ");
            push_dec(&mut title, cfg.knobs.channel as u64);
            assert(title@ =~= title_of(*cfg, 1));
            draw_header(right, fonts, title.as_str(), Ghost(r0));
            self.header_drawn[1] = true;
        }
        assert(self.header_drawn@ =~= seq![true, true]);
        let ghost (l1, r1) = (left.picture(), right.picture());
        assert(l1 == st.headed(l0.picture(), *cfg, *fonts, 0));
        assert(r1 == st.headed(r0.picture(), *cfg, *fonts, 1));
        let mut k: usize = 0;
        while k < KNOBS
            invariant
                k <= KNOBS,
                fonts.fit(),
                st == old(self)@,
                self.last_valid == st.last_valid,
                self.status_drawn == st.status_drawn,
                self.status@ == st.status,
                self.header_drawn@ == seq![true, true],
                forall|i: int| 0 <= i < k ==> #[trigger] self.last@[i] == shown_value(out@, i),
                forall|i: int| k <= i < KNOBS ==> #[trigger] self.last@[i] == st.last[i],
                forall|i: int|
                    0 <= i < k ==> #[trigger] self.named@[i] == byte_at(cfg.knobs.ccs@, i),
                forall|i: int| k <= i < KNOBS ==> #[trigger] self.named@[i] == st.named[i],
                forall|y: int|
                    0 <= y < H ==> #[trigger] left.dirty(y) == (l0.dirty(y) || !st.header_drawn[0]
                        || st.draws_knobs(
                        *cfg,
                        out@,
                        *fonts,
                        0,
                        if k < 4 {
                            k as int
                        } else {
                            4
                        },
                        y,
                    )),
                forall|y: int|
                    0 <= y < H ==> #[trigger] right.dirty(y) == (r0.dirty(y) || !st.header_drawn[1]
                        || st.draws_knobs(*cfg, out@, *fonts, 4, k as int, y)),
                l0 == *old(left),
                r0 == *old(right),
                l0.drawn(*left),
                r0.drawn(*right),
                left.picture() == st.with_knobs(
                    l1,
                    *cfg,
                    out@,
                    *fonts,
                    0,
                    if k < 4 {
                        k as int
                    } else {
                        4
                    },
                ),
                right.picture() == st.with_knobs(
                    r1,
                    *cfg,
                    out@,
                    *fonts,
                    4,
                    if k < 4 {
                        4
                    } else {
                        k as int
                    },
                ),
                !st.left_stale(*cfg, out@) ==> *left == l0,
                !st.right_stale(*cfg, out@) ==> *right == r0,
            decreases KNOBS - k,
        {
            let v: u8 = if out.knobs[k] < 127 {
                out.knobs[k]
            } else {
                127
            };
            let ghost (lk, rk) = (*left, *right);
            let cc = cc_of(cfg, k);
            let whole = !self.last_valid || self.named[k] != cc;
            assert(whole == st.bare(*cfg, k as int));
            if whole || self.last[k] != v {
                assert(st.stale(*cfg, out@, k as int));
                self.last[k] = v;
                self.named[k] = cc;
                if k < 4 {
                    draw_knob(left, cfg, fonts, k, v, whole, Ghost(l0));
                } else {
                    draw_knob(right, cfg, fonts, k, v, whole, Ghost(r0));
                }
            }
            proof {
                let from = if k < 4 {
                    0
                } else {
                    4int
                };
                assert forall|y: int| 0 <= y < H implies #[trigger] left.dirty(y) == (lk.dirty(y)
                    || (k < 4 && st.stale(*cfg, out@, k as int) && knob_rows(
                    *fonts,
                    st.bare(*cfg, k as int),
                    y,
                ))) by {}
                assert forall|y: int| 0 <= y < H implies #[trigger] right.dirty(y) == (rk.dirty(y)
                    || (k >= 4 && st.stale(*cfg, out@, k as int) && knob_rows(
                    *fonts,
                    st.bare(*cfg, k as int),
                    y,
                ))) by {}
                assert forall|y: int| #[trigger] st.draws_knobs(
                    *cfg,
                    out@,
                    *fonts,
                    from,
                    k + 1,
                    y,
                ) == (st.draws_knobs(*cfg, out@, *fonts, from, k as int, y) || (st.stale(
                    *cfg,
                    out@,
                    k as int,
                ) && knob_rows(*fonts, st.bare(*cfg, k as int), y))) by {
                    lemma_draws_next(st, *cfg, out@, *fonts, from, k as int, y);
                }
            }
            k += 1;
        }
        self.last_valid = true;
        assert(self.last@ =~= Seq::new(KNOBS as nat, |k: int| shown_value(out@, k)));
        assert(self.named@ =~= st.updated(*cfg, out@).named);
        if !self.status_drawn {
            let ghost f0 = *right;
            right.rect(0, H - 20, W, 20, BG);
            let ghost f1 = *right;
            right.text(10, H - 18, &fonts.small, 1, MUTED, self.status.as_str());
            self.status_drawn = true;
            proof {
                lemma_drawn_trans(r0, f0, f1);
                lemma_drawn_trans(r0, f1, *right);
                let t = Line { x: 10, y: 254, font: fonts.small, scale: 1, text: self.status@ };
                assert forall|y: int| 0 <= y < H implies #[trigger] right.dirty(y) == (f0.dirty(y)
                    || 252 <= y) by {
                    assert(f1.dirty(y) == (f0.dirty(y) || 252 <= y < 272));
                    if t.inks_row(y) {
                        lemma_inked_rows(t, y);
                    }
                }
            }
        }
    }
}

impl Default for Surface {
    fn default() -> (r: Self)
        ensures
            !r@.last_valid,
            r@.header_drawn == seq![false, false],
            r@.status.len() == 0,
            !r@.status_drawn,
    {
        Surface::new()
    }
}

/// Paint a startup card while the driver comes up.
pub fn splash(frame: &mut Frame, fonts: &Fonts, line1: &str, line2: &str)
    requires
        old(frame).wf(),
        fonts.fit(),
        line1@.len() * fonts.large.w <= usize::MAX,
        line2@.len() * fonts.small.w <= usize::MAX,
    ensures
        final(frame).picture() == card_picture(*fonts, line1@, line2@),
        old(frame).drawn(*final(frame)),
        final(frame).all_dirty(),
{
    let ghost f0 = *frame;
    frame.clear(BG);
    let ghost f1 = *frame;
    assert(line1@.len() * fonts.large.w * 1 == line1@.len() * fonts.large.w);
    assert(line2@.len() * fonts.small.w * 1 == line2@.len() * fonts.small.w);
    frame.text_centred(0, W, H / 2 - 40, &fonts.large, 1, BAR, line1);
    let ghost f2 = *frame;
    frame.text_centred(0, W, H / 2 + 8, &fonts.small, 1, CARD, line2);
    proof {
        lemma_drawn_trans(f0, f1, f2);
        lemma_drawn_trans(f0, f2, *frame);
    }
}

proof fn lemma_draws_next(
    st: SurfaceState,
    cfg: Config,
    out: OutputsView,
    fonts: Fonts,
    from: int,
    k: int,
    y: int,
)
    requires
        from <= k,
    ensures
        st.draws_knobs(cfg, out, fonts, from, k + 1, y) == (st.draws_knobs(
            cfg,
            out,
            fonts,
            from,
            k,
            y,
        ) || (st.stale(cfg, out, k) && knob_rows(fonts, st.bare(cfg, k), y))),
{
    if st.draws_knobs(cfg, out, fonts, from, k, y) {
        let i = choose|i: int|
            from <= i < k && #[trigger] st.stale(cfg, out, i) && knob_rows(
                fonts,
                st.bare(cfg, i),
                y,
            );
        assert(st.stale(cfg, out, i));
    }
}

/// An update with the settings and the values of the one before it draws nothing.
pub proof fn law_idle_updates_draw_nothing(st: SurfaceState, cfg: Config, out: OutputsView)
    ensures
        !st.updated(cfg, out).left_stale(cfg, out),
        !st.updated(cfg, out).right_stale(cfg, out),
        st.updated(cfg, out).updated(cfg, out) == st.updated(cfg, out),
{
}

/// An update for which only the value of knob `k` changed draws on the screen of that knob and on
/// no other, and there on the rows of its number and of its bar.
pub proof fn law_a_changed_value_is_drawn(
    st: SurfaceState,
    cfg: Config,
    fonts: Fonts,
    before: OutputsView,
    now: OutputsView,
    k: int,
    y: int,
)
    requires
        0 <= k < KNOBS,
        shown_value(before, k) != shown_value(now, k),
        forall|i: int|
            0 <= i < KNOBS && i != k ==> shown_value(before, i) == #[trigger] shown_value(now, i),
    ensures
        ({
            let s = st.updated(cfg, before);
            &&& s.draws_left(cfg, now, fonts, y) == (k < 4 && knob_rows(fonts, false, y))
            &&& s.draws_right(cfg, now, fonts, y) == (k >= 4 && knob_rows(fonts, false, y))
            &&& s.left_stale(cfg, now) == (k < 4)
            &&& s.right_stale(cfg, now) == (k >= 4)
        }),
        knob_rows(fonts, false, 223),
{
    let s = st.updated(cfg, before);
    assert(s.stale(cfg, now, k));
    assert(!s.bare(cfg, k));
    assert forall|i: int| 0 <= i < KNOBS && i != k implies !#[trigger] s.stale(cfg, now, i) by {
        assert(shown_value(before, i) == shown_value(now, i));
    }
}

proof fn lemma_row_count(f: Frame, fonts: Fonts, y: int)
    requires
        fonts.fit(),
        0 <= y <= H,
        forall|r: int| 0 <= r < H ==> #[trigger] f.dirty(r) == knob_rows(fonts, false, r),
    ensures
        f.dirty_rows(y) == (if y < 60 {
            fonts.large.h as int
        } else if y < 60 + fonts.large.h {
            60 + fonts.large.h - y
        } else {
            0
        }) + (if y < 223 {
            10
        } else if y < 233 {
            233 - y
        } else {
            0
        }),
    decreases H - y,
{
    if y < H {
        lemma_row_count(f, fonts, y + 1);
        assert(f.dirty(y) == knob_rows(fonts, false, y));
    }
}

/// One knob move is cheap: a frame that was clean and on which only the value of a knob was drawn
/// has at most 32 rows to send, about 30 KB.
pub proof fn law_one_knob_is_cheap(f: Frame, fonts: Fonts, index: u8)
    requires
        f.wf(),
        fonts.fit(),
        forall|r: int| 0 <= r < H ==> #[trigger] f.dirty(r) == knob_rows(fonts, false, r),
    ensures
        f.dirty_rows(0) == fonts.large.h + 10,
        f.dirty_rows(0) <= 32,
        total_length(f.streams(index, 0)) <= 30720 + 36 * f.streams(index, 0).len(),
{
    lemma_row_count(f, fonts, 0);
    f.law_flush_sends_the_dirty_rows(index);
}

/// A bar is empty at 0, full at 127, and grows with the value.
pub proof fn law_bar_follows_the_value(a: u8, b: u8)
    requires
        a <= b <= 127,
    ensures
        bar_fill(0) == 0,
        bar_fill(127) == 94,
        0 <= bar_fill(a) <= bar_fill(b) <= 94,
{
}

// What can be read off the screens.

/// What is at a place of a screen.
pub open spec fn pixel(px: Seq<u16>, x: int, y: int) -> u16 {
    px[480 * y + x]
}

/// A text says a number: its decimal digits, with nothing but spaces before them.
pub open spec fn says(text: Seq<char>, n: nat) -> bool {
    exists|pad: int|
        0 <= pad <= text.len() && (forall|i: int| 0 <= i < pad ==> text[i] == ' ')
            && #[trigger] read_uint(text.skip(pad), 255) == Some(n)
}

/// A text of that width is in the middle of the `w` columns from `x` on.
pub open spec fn in_the_middle(t: Line, x: int, w: int) -> bool {
    let width = t.text.len() * t.font.w;
    let left = t.x - x;
    width <= w ==> left >= 0 && 0 <= (w - width - left) - left <= 1
}

/// The places of a knob's cell that have its number, or the inside of its bar.
pub open spec fn of_value(fonts: Fonts, k: int, x: int, y: int) -> bool {
    &&& 120 * (k % 4) + 1 <= x < 120 * (k % 4) + 119
    &&& 60 <= y < 60 + fonts.large.h || 223 <= y < 233
}

/// The number in a knob's cell is `n`: the place for it shows a text that says so, large and in the
/// middle, and nothing else.
pub open spec fn number_shown(px: Seq<u16>, fonts: Fonts, k: int, n: nat) -> bool {
    exists|t: Line| #[trigger] number_line_shown(px, fonts, k, n, t)
}

pub open spec fn number_line_shown(px: Seq<u16>, fonts: Fonts, k: int, n: nat, t: Line) -> bool {
    &&& says(t.text, n)
    &&& t.text.len() == 3
    &&& t.font == fonts.large && t.scale == 1 && t.y == 60
    &&& in_the_middle(t, 120 * (k % 4) + 1, 118)
    &&& forall|x: int, y: int|
        120 * (k % 4) + 1 <= x < 120 * (k % 4) + 119 && 60 <= y < 60 + fonts.large.h
            ==> #[trigger] pixel(px, x, y) == if t.covers(x, y) {
            FG
        } else {
            BG
        }
}

/// The bar in a knob's cell is as full as `n` is of 127: its whole length is 94 columns, of which the
/// outline takes the first and the last.
pub open spec fn bar_shown(px: Seq<u16>, k: int, n: nat) -> bool {
    forall|x: int, y: int|
        1 <= x - 120 * (k % 4) - 13 <= 92 && 223 <= y < 233 ==> #[trigger] pixel(px, x, y) == if 127
            * (x - 120 * (k % 4) - 13 + 1) <= 94 * n {
            BAR
        } else {
            BAR_BG
        }
}

/// A right-aligned number says that number.
pub proof fn law_right_aligned_says_the_number(v: u8)
    ensures
        says(right_aligned(v), v as nat),
        right_aligned(v).len() == 3,
{
    reveal_strlit("  ");
    reveal_strlit(" ");
    law_decimal_reads_back(v as nat, 255);
    let pad: int = if v < 10 {
        2
    } else if v < 100 {
        1
    } else {
        0
    };
    let s = right_aligned(v);
    assert(s.skip(pad) =~= dec(v as nat));
    assert(forall|i: int| 0 <= i < pad ==> s[i] == ' ');
}

proof fn lemma_value_shown(px: Seq<u16>, fonts: Fonts, k: int, value: u8)
    requires
        fonts.fit(),
        0 <= k < KNOBS,
        value <= 127,
    ensures
        number_shown(value_picture(px, fonts, k, value), fonts, k, value as nat),
        bar_shown(value_picture(px, fonts, k, value), k, value as nat),
{
    let a = value_picture(px, fonts, k, value);
    let t = number_line(fonts, k, value);
    law_right_aligned_says_the_number(value);
    assert forall|x: int, y: int|
        120 * (k % 4) + 1 <= x < 120 * (k % 4) + 119 && 60 <= y < 60
            + fonts.large.h implies #[trigger] pixel(a, x, y) == if t.covers(x, y) {
        FG
    } else {
        BG
    } by {
        law_places_are_pixels(x, y);
    }
    assert(t.text.len() * fonts.large.w * 1 == 3 * fonts.large.w);
    assert(in_the_middle(t, 120 * (k % 4) + 1, 118));
    assert(number_line_shown(a, fonts, k, value as nat, t));
    assert forall|x: int, y: int|
        1 <= x - 120 * (k % 4) - 13 <= 92 && 223 <= y < 233 implies #[trigger] pixel(a, x, y)
        == if 127 * (x - 120 * (k % 4) - 13 + 1) <= 94 * value {
        BAR
    } else {
        BAR_BG
    } by {
        law_places_are_pixels(x, y);
    }
}

proof fn lemma_other_cells(
    px: Seq<u16>,
    cfg: Config,
    fonts: Fonts,
    k: int,
    j: int,
    value: u8,
    x: int,
    y: int,
)
    requires
        fonts.fit(),
        0 <= k < KNOBS,
        0 <= j < KNOBS,
        k % 4 != j % 4,
        value <= 127,
        of_value(fonts, k, x, y),
    ensures
        pixel(value_picture(px, fonts, j, value), x, y) == pixel(px, x, y),
        pixel(cell_picture(px, cfg, fonts, j), x, y) == pixel(px, x, y),
{
    law_places_are_pixels(x, y);
    let t = number_line(fonts, j, value);
    if t.covers(x, y) {
        lemma_number_bounds(fonts, j, value, x, y);
    }
    let name = "CC "@ + dec(byte_at(cfg.knobs.ccs@, j) as nat);
    let u = Line {
        x: centred((j % 4) * CELL_W + 1, CELL_W - 2, fonts.small, 1, name),
        y: 34,
        font: fonts.small,
        scale: 1,
        text: name,
    };
    if u.covers(x, y) {
        lemma_line_bounds(u, x, y);
    }
}

/// Whether what is shown of a knob's value is the same on both.
pub open spec fn same_value(a: Seq<u16>, b: Seq<u16>, fonts: Fonts, k: int) -> bool {
    forall|x: int, y: int|
        of_value(fonts, k, x, y) ==> #[trigger] pixel(a, x, y) == pixel(b, x, y)
}

proof fn lemma_same_value(a: Seq<u16>, b: Seq<u16>, fonts: Fonts, k: int, n: nat)
    requires
        same_value(b, a, fonts, k),
        number_shown(a, fonts, k, n),
        bar_shown(a, k, n),
    ensures
        number_shown(b, fonts, k, n),
        bar_shown(b, k, n),
{
    let t = choose|t: Line| #[trigger] number_line_shown(a, fonts, k, n, t);
    assert forall|x: int, y: int|
        120 * (k % 4) + 1 <= x < 120 * (k % 4) + 119 && 60 <= y < 60
            + fonts.large.h implies #[trigger] pixel(b, x, y) == if t.covers(x, y) {
        FG
    } else {
        BG
    } by {
        assert(of_value(fonts, k, x, y));
        assert(pixel(b, x, y) == pixel(a, x, y));
    }
    assert(number_line_shown(b, fonts, k, n, t));
    assert forall|x: int, y: int|
        1 <= x - 120 * (k % 4) - 13 <= 92 && 223 <= y < 233 implies #[trigger] pixel(b, x, y)
        == if 127 * (x - 120 * (k % 4) - 13 + 1) <= 94 * n {
        BAR
    } else {
        BAR_BG
    } by {
        assert(of_value(fonts, k, x, y));
        assert(pixel(b, x, y) == pixel(a, x, y));
    }
}

impl SurfaceState {
    proof fn lemma_knobs_keep(
        self,
        px: Seq<u16>,
        cfg: Config,
        out: OutputsView,
        fonts: Fonts,
        from: int,
        n: int,
        k: int,
    )
        requires
            fonts.fit(),
            0 <= k < KNOBS,
            0 <= from,
            n <= KNOBS,
            forall|j: int| from <= j < n ==> #[trigger] (j % 4) != k % 4,
        ensures
            same_value(self.with_knobs(px, cfg, out, fonts, from, n), px, fonts, k),
        decreases n - from,
    {
        if from < n {
            self.lemma_knobs_keep(px, cfg, out, fonts, from, n - 1, k);
            let rest = self.with_knobs(px, cfg, out, fonts, from, n - 1);
            let all = self.with_knobs(px, cfg, out, fonts, from, n);
            let v = shown_value(out, n - 1);
            assert((n - 1) % 4 != k % 4);
            assert forall|x: int, y: int| of_value(fonts, k, x, y) implies #[trigger] pixel(
                all,
                x,
                y,
            ) == pixel(px, x, y) by {
                lemma_other_cells(rest, cfg, fonts, k, n - 1, v, x, y);
                lemma_other_cells(
                    cell_picture(rest, cfg, fonts, n - 1),
                    cfg,
                    fonts,
                    k,
                    n - 1,
                    v,
                    x,
                    y,
                );
                assert(pixel(rest, x, y) == pixel(px, x, y));
            }
        }
    }

    proof fn lemma_knobs_show(
        self,
        px: Seq<u16>,
        cfg: Config,
        out: OutputsView,
        fonts: Fonts,
        from: int,
        n: int,
        k: int,
    )
        requires
            fonts.fit(),
            0 <= from <= k < n <= KNOBS,
            n <= from + 4,
            !self.stale(cfg, out, k) ==> number_shown(px, fonts, k, shown_value(out, k) as nat)
                && bar_shown(px, k, shown_value(out, k) as nat),
        ensures
            number_shown(
                self.with_knobs(px, cfg, out, fonts, from, n),
                fonts,
                k,
                shown_value(out, k) as nat,
            ),
            bar_shown(
                self.with_knobs(px, cfg, out, fonts, from, n),
                k,
                shown_value(out, k) as nat,
            ),
        decreases n - from,
    {
        let v = shown_value(out, k);
        let rest = self.with_knobs(px, cfg, out, fonts, from, n - 1);
        let all = self.with_knobs(px, cfg, out, fonts, from, n);
        if n - 1 == k {
            self.lemma_knobs_keep(px, cfg, out, fonts, from, k, k);
            if self.stale(cfg, out, k) {
                lemma_value_shown(rest, fonts, k, v);
                lemma_value_shown(cell_picture(rest, cfg, fonts, k), fonts, k, v);
            } else {
                lemma_same_value(px, rest, fonts, k, v as nat);
            }
        } else {
            self.lemma_knobs_show(px, cfg, out, fonts, from, n - 1, k);
            let w = shown_value(out, n - 1);
            assert forall|x: int, y: int| of_value(fonts, k, x, y) implies #[trigger] pixel(
                all,
                x,
                y,
            ) == pixel(rest, x, y) by {
                lemma_other_cells(rest, cfg, fonts, k, n - 1, w, x, y);
                lemma_other_cells(
                    cell_picture(rest, cfg, fonts, n - 1),
                    cfg,
                    fonts,
                    k,
                    n - 1,
                    w,
                    x,
                    y,
                );
            }
            lemma_same_value(rest, all, fonts, k, v as nat);
        }
    }

    /// After an update the cell of every knob shows the value that was last sent for it, as a number
    /// and as a bar: the first four on the left screen, the others on the right.
    ///
    /// A cell that has to be drawn shows it whatever was there; one that has not, has to show it
    /// already.
    pub proof fn law_an_update_shows_what_was_sent(
        self,
        px: Seq<u16>,
        cfg: Config,
        out: OutputsView,
        fonts: Fonts,
        k: int,
        n: nat,
    )
        requires
            fonts.fit(),
            0 <= k < KNOBS,
            out.knobs[k] <= 127 ==> n == out.knobs[k],
            out.knobs[k] > 127 ==> n == 127,
            !self.header_drawn[k / 4] ==> self.stale(cfg, out, k),
            !self.stale(cfg, out, k) ==> number_shown(px, fonts, k, n) && bar_shown(px, k, n),
        ensures
            k < 4 ==> number_shown(self.left(px, cfg, out, fonts), fonts, k, n) && bar_shown(
                self.left(px, cfg, out, fonts),
                k,
                n,
            ),
            k >= 4 ==> number_shown(self.right(px, cfg, out, fonts), fonts, k, n) && bar_shown(
                self.right(px, cfg, out, fonts),
                k,
                n,
            ),
    {
        assert(n == shown_value(out, k));
        if k < 4 {
            self.lemma_knobs_show(self.headed(px, cfg, fonts, 0), cfg, out, fonts, 0, 4, k);
        } else {
            let under = self.headed(px, cfg, fonts, 1);
            self.lemma_knobs_show(under, cfg, out, fonts, 4, KNOBS as int, k);
            let knobs = self.with_knobs(under, cfg, out, fonts, 4, KNOBS as int);
            let all = self.right(px, cfg, out, fonts);
            let t = Line { x: 10, y: 254, font: fonts.small, scale: 1, text: self.status };
            assert forall|x: int, y: int| of_value(fonts, k, x, y) implies #[trigger] pixel(
                all,
                x,
                y,
            ) == pixel(knobs, x, y) by {
                law_places_are_pixels(x, y);
                if t.covers(x, y) {
                    lemma_line_bounds(t, x, y);
                }
            }
            lemma_same_value(knobs, all, fonts, k, n);
        }
    }
}

/// A cell that is drawn whole names its controller: the text over the number is "CC " and what says
/// the controller's number, in the middle, and there is an outline around the bar.
pub proof fn law_a_cell_names_its_controller(
    px: Seq<u16>,
    cfg: Config,
    fonts: Fonts,
    k: int,
    value: u8,
    x: int,
    y: int,
)
    requires
        fonts.fit(),
        0 <= k < KNOBS,
        cfg.knobs.ccs@.len() == KNOBS,
        value <= 127,
        120 * (k % 4) + 1 <= x < 120 * (k % 4) + 119,
    ensures
        ({
            let text = "CC "@ + dec(cfg.knobs.ccs@[k] as nat);
            let t = Line {
                x: centred(120 * (k % 4) + 1, 118, fonts.small, 1, text),
                y: 34,
                font: fonts.small,
                scale: 1,
                text,
            };
            &&& in_the_middle(t, 120 * (k % 4) + 1, 118)
            &&& 26 <= y < 60 ==> pixel(knob_picture(px, cfg, fonts, k, value), x, y)
                == if t.covers(x, y) {
                MUTED
            } else {
                BG
            }
        }),
        13 <= x - 120 * (k % 4) < 107 && (y == 222 || y == 233) ==> pixel(
            knob_picture(px, cfg, fonts, k, value),
            x,
            y,
        ) == RULE,
        (x - 120 * (k % 4) == 13 || x - 120 * (k % 4) == 106) && 222 <= y < 234 ==> pixel(
            knob_picture(px, cfg, fonts, k, value),
            x,
            y,
        ) == RULE,
        82 <= y < 222 || 234 <= y < 248 ==> pixel(knob_picture(px, cfg, fonts, k, value), x, y) == BG,
{
    let name = "CC "@ + dec(cfg.knobs.ccs@[k] as nat);
    let t = Line {
        x: centred((k % 4) * CELL_W + 1, CELL_W - 2, fonts.small, 1, name),
        y: 34,
        font: fonts.small,
        scale: 1,
        text: name,
    };
    assert(name.len() * fonts.small.w * 1 == name.len() * fonts.small.w);
    let u = number_line(fonts, k, value);
    if 0 <= y < 272 {
        law_places_are_pixels(x, y);
        if u.covers(x, y) {
            lemma_number_bounds(fonts, k, value, x, y);
        }
        if t.covers(x, y) {
            lemma_line_bounds(t, x, y);
        }
    }
}

/// A screen whose header is missing gets it: the title on the left screen, the channels of the pads
/// and of the knobs on the right one, over the header's colour, and rules between the cells below.
pub proof fn law_a_header_says_what_it_is(cfg: Config, fonts: Fonts, screen: int, x: int, y: int)
    requires
        0 <= x < 480,
        0 <= y < 272,
        fonts.fit(),
    ensures
        ({
            let a = header_picture(cfg, fonts, screen);
            let left = cfg.display.title@;
            let right = "PADS CH "@ + dec(cfg.pads.channel as nat) + "  KNOBS CH "@ + dec(
                cfg.knobs.channel as nat,
            );
            let t = Line {
                x: 10,
                y: 5,
                font: fonts.small,
                scale: 1,
                text: if screen == 0 {
                    left
                } else {
                    right
                },
            };
            &&& y < 26 ==> pixel(a, x, y) == if t.covers(x, y) {
                FG
            } else {
                HEADER
            }
            &&& y >= 26 && (x == 120 || x == 240 || x == 360) ==> pixel(a, x, y) == RULE
            &&& y >= 31 && !(x == 120 || x == 240 || x == 360) ==> pixel(a, x, y) == BG
        }),
{
    let t = Line { x: 10, y: 5, font: fonts.small, scale: 1, text: title_of(cfg, screen) };
    law_places_are_pixels(x, y);
    if t.covers(x, y) {
        lemma_line_bounds(t, x, y);
    }
}

/// The status line stands below the cells of the right screen, alone.
pub proof fn law_the_status_is_on_the_right_screen(
    st: SurfaceState,
    px: Seq<u16>,
    cfg: Config,
    out: OutputsView,
    fonts: Fonts,
    x: int,
    y: int,
)
    requires
        0 <= x < 480,
        252 <= y < 272,
        !st.status_drawn,
    ensures
        ({
            let t = Line { x: 10, y: 254, font: fonts.small, scale: 1, text: st.status };
            pixel(st.right(px, cfg, out, fonts), x, y) == if t.covers(x, y) {
                MUTED
            } else {
                BG
            }
        }),
{
    law_places_are_pixels(x, y);
}

/// The startup card has its first line large and over the second, both in the middle of the screen.
pub proof fn law_the_card_has_two_lines(
    fonts: Fonts,
    line1: Seq<char>,
    line2: Seq<char>,
    x: int,
    y: int,
)
    requires
        0 <= x < 480,
        0 <= y < 272,
        fonts.fit(),
    ensures
        ({
            let t = Line {
                x: centred(0, 480, fonts.large, 1, line1),
                y: 96,
                font: fonts.large,
                scale: 1,
                text: line1,
            };
            let u = Line {
                x: centred(0, 480, fonts.small, 1, line2),
                y: 144,
                font: fonts.small,
                scale: 1,
                text: line2,
            };
            &&& in_the_middle(t, 0, 480)
            &&& in_the_middle(u, 0, 480)
            &&& pixel(card_picture(fonts, line1, line2), x, y) == if t.covers(x, y) {
                BAR
            } else if u.covers(x, y) {
                CARD
            } else {
                BG
            }
        }),
{
    let t = Line {
        x: centred(0, W as int, fonts.large, 1, line1),
        y: 96,
        font: fonts.large,
        scale: 1,
        text: line1,
    };
    let u = Line {
        x: centred(0, W as int, fonts.small, 1, line2),
        y: 144,
        font: fonts.small,
        scale: 1,
        text: line2,
    };
    law_places_are_pixels(x, y);
    if t.covers(x, y) {
        lemma_line_bounds(t, x, y);
    }
    if u.covers(x, y) {
        lemma_line_bounds(u, x, y);
    }
    assert(line1.len() * fonts.large.w * 1 == line1.len() * fonts.large.w);
    assert(line2.len() * fonts.small.w * 1 == line2.len() * fonts.small.w);
}

impl SurfaceState {
    /// What the surface believes of knob `k` is what its screen shows. Where no value is believed to
    /// be drawn there is nothing to be wrong about, and values are only believed to be under a header
    /// that is drawn.
    pub open spec fn truthful(self, px: Seq<u16>, fonts: Fonts, k: int) -> bool {
        self.last_valid ==> self.header_drawn[k / 4] && number_shown(
            px,
            fonts,
            k,
            self.last[k] as nat,
        ) && bar_shown(px, k, self.last[k] as nat)
    }

    /// An update makes the screens show what was last sent, whatever was drawn before, as long as the
    /// surface knows what that was; and it knows what is drawn then. So it goes on from update to
    /// update.
    pub proof fn law_the_screens_keep_up(
        self,
        px: Seq<u16>,
        cfg: Config,
        out: OutputsView,
        fonts: Fonts,
        k: int,
        n: nat,
    )
        requires
            fonts.fit(),
            0 <= k < KNOBS,
            self.truthful(px, fonts, k),
            out.knobs[k] <= 127 ==> n == out.knobs[k],
            out.knobs[k] > 127 ==> n == 127,
        ensures
            ({
                let after = if k < 4 {
                    self.left(px, cfg, out, fonts)
                } else {
                    self.right(px, cfg, out, fonts)
                };
                &&& number_shown(after, fonts, k, n)
                &&& bar_shown(after, k, n)
                &&& self.updated(cfg, out).truthful(after, fonts, k)
                &&& self.updated(cfg, out).last_valid
            }),
    {
        self.law_an_update_shows_what_was_sent(px, cfg, out, fonts, k, n);
        assert(k / 4 == 0 || k / 4 == 1);
    }
}

} // verus!
