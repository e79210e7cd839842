//! The two 480x272 colour displays.
//!
//! Pixels do not go over HID. USB interface 5 ("Maschine MK3 BD") is a vendor-specific bulk
//! endpoint that takes a small command stream:
//!
//! ```text
//! 84 00 SS 60 00 00 00 00     header, SS = display index (0 = left, 1 = right)
//! xxxx yyyy wwww hhhh         destination rect, big-endian u16
//! 02 00 00 00                 command: pixel data follows
//! 0000 llll                   payload length in 32-bit words (w*h/2)
//! <w*h RGB565 pixels, big-endian>
//! 02 00 00 00                 command: end of pixel data
//! 03 00 00 00                 command: blit
//! 40 00 00 00                 command: end of frame
//! ```
//!
//! Here the stream is composed; it is sent elsewhere.
pub mod font;

use crate::text::{chars_of, dec, push_dec};
use font::Font;
use vstd::prelude::*;

verus! {

/// Width of each display in pixels.
pub const W: usize = 480;

/// Height of each display in pixels.
pub const H: usize = 272;

/// Pixels per display.
pub const PIXELS: usize = 130560;

/// Black.
pub const BLACK: u16 = 0;

/// White.
pub const WHITE: u16 = 0xffff;

/// 8-bit RGB in RGB565: the upper five bits of red, six of green and five of blue.
pub open spec fn rgb_of(r: u8, g: u8, b: u8) -> u16 {
    ((r / 8) * 2048 + (g / 4) * 32 + b / 8) as u16
}

/// Pack 8-bit RGB into RGB565.
pub fn rgb(r: u8, g: u8, b: u8) -> (v: u16)
    ensures
        v == rgb_of(r, g, b),
{
    (r / 8) as u16 * 2048 + (g / 4) as u16 * 32 + (b / 8) as u16
}

/// Packing keeps the upper bits of each component.
pub proof fn law_rgb_keeps_the_upper_bits(r: u8, g: u8, b: u8)
    ensures
        rgb_of(r, g, b) / 2048 == r / 8,
        (rgb_of(r, g, b) / 32) % 64 == g / 4,
        rgb_of(r, g, b) % 32 == b / 8,
{
    let v = rgb_of(r, g, b);
    let (x, y, z) = ((r / 8) as int, (g / 4) as int, (b / 8) as int);
    assert(v == x * 2048 + y * 32 + z);
    assert(v / 32 == x * 64 + y);
}

// Pictures.

/// The column of pixel `k`.
pub open spec fn col(k: int) -> int {
    k % (W as int)
}

/// The row of pixel `k`.
pub open spec fn row(k: int) -> int {
    k / (W as int)
}

/// Whether pixel `k` lies in a rectangle.
pub open spec fn inside(k: int, x: int, y: int, w: int, h: int) -> bool {
    x <= col(k) < x + w && y <= row(k) < y + h
}

/// A picture with a rectangle filled.
pub open spec fn with_rect(px: Seq<u16>, x: int, y: int, w: int, h: int, c: u16) -> Seq<u16> {
    Seq::new(
        PIXELS as nat,
        |k: int|
            if inside(k, x, y, w, h) {
                c
            } else {
                px[k]
            },
    )
}

/// A picture with a one-pixel outline; nothing where the rectangle is empty.
pub open spec fn with_outline(px: Seq<u16>, x: int, y: int, w: int, h: int, c: u16) -> Seq<u16> {
    if w == 0 || h == 0 {
        px
    } else {
        with_rect(
            with_rect(
                with_rect(with_rect(px, x, y, w, 1, c), x, y + h - 1, w, 1, c),
                x,
                y,
                1,
                h,
                c,
            ),
            x + w - 1,
            y,
            1,
            h,
            c,
        )
    }
}

/// A picture of one colour.
pub open spec fn plain(c: u16) -> Seq<u16> {
    Seq::new(PIXELS as nat, |k: int| c)
}

/// A line of text to draw: where, in what font, how large, and what.
pub struct Line {
    pub x: int,
    pub y: int,
    pub font: Font,
    pub scale: int,
    pub text: Seq<char>,
}

impl Line {
    /// How far one character advances.
    pub open spec fn advance(self) -> int {
        self.font.w * self.scale
    }

    /// Whether the ink at (`gx`, `gy`) of character `i` covers column `px` of row `py`.
    pub open spec fn inks(self, i: int, gx: int, gy: int, px: int, py: int) -> bool {
        &&& 0 <= i < self.text.len()
        &&& self.font.inked(self.text[i], gx, gy)
        &&& self.x + i * self.advance() + gx * self.scale <= px < self.x + i * self.advance() + gx
            * self.scale + self.scale
        &&& self.y + gy * self.scale <= py < self.y + gy * self.scale + self.scale
    }

    /// Whether the text covers a place.
    pub open spec fn covers(self, px: int, py: int) -> bool {
        exists|i: int, gx: int, gy: int| #[trigger] self.inks(i, gx, gy, px, py)
    }

    /// Whether the text covers a place of the display in row `py`.
    pub open spec fn inks_row(self, py: int) -> bool {
        exists|px: int| 0 <= px < W && #[trigger] self.covers(px, py)
    }

    /// Whether the text covers a place with the ink up to (`l`, `m`) of character `n`.
    pub open spec fn covers_to(self, n: int, m: int, l: int, px: int, py: int) -> bool {
        exists|i: int, gx: int, gy: int|
            (i < n || (i == n && (gy < m || (gy == m && gx < l)))) && #[trigger] self.inks(
                i,
                gx,
                gy,
                px,
                py,
            )
    }
}

/// A picture with a line of text drawn over it.
pub open spec fn with_text(px: Seq<u16>, t: Line, c: u16) -> Seq<u16> {
    Seq::new(
        PIXELS as nat,
        |k: int|
            if t.covers(col(k), row(k)) {
                c
            } else {
                px[k]
            },
    )
}

/// Where a text starts that is centred in the span of `w` from `x`, and where it does not fit.
pub open spec fn centred(x: int, w: int, font: Font, scale: int, text: Seq<char>) -> int {
    let tw = text.len() * font.w * scale;
    if tw >= w {
        x
    } else {
        x + (w - tw) / 2
    }
}

/// A picture with a line of text drawn over it, centred in the span of `w` from `x`.
pub open spec fn with_centred(
    px: Seq<u16>,
    x: int,
    w: int,
    y: int,
    font: Font,
    scale: int,
    c: u16,
    text: Seq<char>,
) -> Seq<u16> {
    with_text(px, Line { x: centred(x, w, font, scale, text), y, font, scale, text }, c)
}

/// Pixels are stored row by row, 480 to a row, so every place of the display has one.
pub proof fn law_places_are_pixels(x: int, y: int)
    requires
        0 <= x < 480,
        0 <= y < 272,
    ensures
        0 <= 480 * y + x < PIXELS,
        col(480 * y + x) == x,
        row(480 * y + x) == y,
{
}

/// A rectangle of a colour takes the places from its corner on, as wide and as high as it is, and
/// leaves the others.
pub proof fn law_a_rectangle_fills_its_places(
    px: Seq<u16>,
    x: int,
    y: int,
    w: int,
    h: int,
    c: u16,
    at_x: int,
    at_y: int,
)
    requires
        0 <= at_x < 480,
        0 <= at_y < 272,
    ensures
        with_rect(px, x, y, w, h, c).len() == PIXELS,
        with_rect(px, x, y, w, h, c)[480 * at_y + at_x] == if x <= at_x && at_x < x + w && y <= at_y
            && at_y < y + h {
            c
        } else {
            px[480 * at_y + at_x]
        },
        plain(c)[480 * at_y + at_x] == c,
{
}

/// An outline takes the edge of its rectangle and leaves what is within and what is without.
pub proof fn law_an_outline_fills_the_edge(
    px: Seq<u16>,
    x: int,
    y: int,
    w: int,
    h: int,
    c: u16,
    at_x: int,
    at_y: int,
)
    requires
        0 <= at_x < 480,
        0 <= at_y < 272,
        w >= 0,
        h >= 0,
    ensures
        ({
            let within = x < at_x && at_x < x + w - 1 && y < at_y && at_y < y + h - 1;
            let part = x <= at_x && at_x < x + w && y <= at_y && at_y < y + h;
            with_outline(px, x, y, w, h, c)[480 * at_y + at_x] == if part && !within {
                c
            } else {
                px[480 * at_y + at_x]
            }
        }),
{
    law_places_are_pixels(at_x, at_y);
}

/// Which glyph a place of a line of text belongs to, and which of the glyph's dots: a text takes
/// exactly the places whose dot has ink.
pub proof fn law_a_text_shows_its_glyphs(t: Line, px: int, py: int)
    requires
        t.scale >= 1,
        t.font.w >= 1,
    ensures
        ({
            let (dx, dy) = (px - t.x, py - t.y);
            let adv = t.font.w * t.scale;
            let i = dx / adv;
            t.covers(px, py) <==> {
                &&& dx >= 0
                &&& dy >= 0
                &&& i < t.text.len()
                &&& t.font.inked(t.text[i], (dx % adv) / t.scale, dy / t.scale)
            }
        }),
{
    let (dx, dy, s, w) = (px - t.x, py - t.y, t.scale, t.font.w as int);
    let adv = w * s;
    assert(adv >= 1) by (nonlinear_arith)
        requires
            adv == w * s,
            w >= 1,
            s >= 1,
    ;
    if t.covers(px, py) {
        let (i, gx, gy) = choose|i: int, gx: int, gy: int| #[trigger] t.inks(i, gx, gy, px, py);
        let r = dx - i * adv;
        assert(0 <= gx * s && gx * s + s <= adv) by (nonlinear_arith)
            requires
                adv == w * s,
                0 <= gx < w,
                s >= 1,
        ;
        assert(i * adv >= 0) by (nonlinear_arith)
            requires
                i >= 0,
                adv >= 1,
        ;
        assert(gy * s >= 0) by (nonlinear_arith)
            requires
                gy >= 0,
                s >= 1,
        ;
        vstd::arithmetic::div_mod::lemma_fundamental_div_mod_converse(dx, adv, i, r);
        vstd::arithmetic::div_mod::lemma_fundamental_div_mod_converse(r, s, gx, r - gx * s);
        vstd::arithmetic::div_mod::lemma_fundamental_div_mod_converse(dy, s, gy, dy - gy * s);
    }
    let i = dx / adv;
    let r = dx % adv;
    let (gx, gy) = (r / s, dy / s);
    if dx >= 0 && dy >= 0 && i < t.text.len() && t.font.inked(t.text[i], gx, gy) {
        vstd::arithmetic::div_mod::lemma_fundamental_div_mod(dx, adv);
        vstd::arithmetic::div_mod::lemma_fundamental_div_mod(r, s);
        vstd::arithmetic::div_mod::lemma_fundamental_div_mod(dy, s);
        vstd::arithmetic::div_mod::lemma_div_pos_is_pos(dx, adv);
        vstd::arithmetic::mul::lemma_mul_is_commutative(i, adv);
        vstd::arithmetic::mul::lemma_mul_is_commutative(gx, s);
        vstd::arithmetic::mul::lemma_mul_is_commutative(gy, s);
        assert(t.inks(i, gx, gy, px, py));
    }
}

/// A centred text has as much room on its left as on its right, to one column, where it fits.
pub proof fn law_a_centred_text_is_in_the_middle(
    x: int,
    w: int,
    font: Font,
    scale: int,
    text: Seq<char>,
)
    ensures
        ({
            let width = text.len() * font.w * scale;
            let left = centred(x, w, font, scale, text) - x;
            &&& width <= w ==> left >= 0 && 0 <= (w - width - left) - left <= 1
            &&& width > w ==> left == 0
        }),
{
}

/// An RGB565 framebuffer for one display, with its dirty rows.
///
/// Tracking dirty rows rather than rectangles keeps the blit logic trivial while still avoiding a
/// 261 KB transfer when only a value readout changed.
pub struct Frame {
    px: Vec<u16>,
    dirty: [bool; H],
}

impl Frame {
    /// The picture.
    pub closed spec fn picture(self) -> Seq<u16> {
        self.px@
    }

    /// For each row, whether it is to be sent.
    pub closed spec fn marks(self) -> Seq<bool> {
        self.dirty@
    }

    /// A whole picture.
    pub open spec fn wf(self) -> bool {
        &&& self.picture().len() == PIXELS
        &&& self.marks().len() == H
    }

    /// Whether row `y` is to be sent.
    pub open spec fn dirty(self, y: int) -> bool {
        0 <= y < H && self.marks()[y]
    }

    /// Whether every row is to be sent.
    pub open spec fn all_dirty(self) -> bool {
        forall|y: int| 0 <= y < H ==> #[trigger] self.dirty(y)
    }

    /// Whether no row is to be sent.
    pub open spec fn clean(self) -> bool {
        forall|y: int| 0 <= y < H ==> !#[trigger] self.dirty(y)
    }

    /// `new` is `self` after some drawing: rows stay to be sent, and so is every row in which a
    /// pixel changed.
    pub open spec fn drawn(self, new: Frame) -> bool {
        &&& new.wf()
        &&& forall|y: int| 0 <= y < H && self.dirty(y) ==> #[trigger] new.dirty(y)
        &&& forall|k: int|
            0 <= k < PIXELS && #[trigger] new.picture()[k] != self.picture()[k] ==> new.dirty(
                row(k),
            )
    }

    /// The rows to send are those of `old`, and those that have ink of a line of text.
    pub open spec fn inked(self, old: Frame, t: Line) -> bool {
        forall|y: int| 0 <= y < H ==> #[trigger] self.dirty(y) == (old.dirty(y) || t.inks_row(y))
    }

    /// The rows to send are those of `old`, and the rows `y0..y1`.
    pub open spec fn marked(self, old: Frame, y0: int, y1: int) -> bool {
        forall|y: int|
            0 <= y < H ==> #[trigger] self.dirty(y) == (old.dirty(y) || y0 <= y < y1)
    }

    /// A black frame, initially fully dirty so the first flush paints everything.
    pub fn new() -> (r: Self)
        ensures
            r.wf(),
            r.picture() == plain(BLACK),
            r.all_dirty(),
    {
        let px: Vec<u16> = vec![0; PIXELS];
        assert(px@ =~= plain(BLACK));
        Frame { px, dirty: [true; H] }
    }

    /// Mark the whole frame for retransmission.
    pub fn touch_all(&mut self)
        requires
            old(self).wf(),
        ensures
            final(self).wf(),
            final(self).picture() == old(self).picture(),
            final(self).all_dirty(),
            old(self).drawn(*final(self)),
    {
        self.dirty = [true; H];
    }

    /// True when nothing has changed since the last flush.
    pub fn is_clean(&self) -> (r: bool)
        ensures
            r == self.clean(),
    {
        let mut y: usize = 0;
        while y < H
            invariant
                y <= H,
                forall|i: int| 0 <= i < y ==> !#[trigger] self.dirty(i),
            decreases H - y,
        {
            if self.dirty[y] {
                assert(self.dirty(y as int));
                return false;
            }
            y += 1;
        }
        true
    }

    fn mark(&mut self, y0: usize, y1: usize)
        requires
            y0 <= y1 <= H,
            old(self).wf(),
        ensures
            final(self).wf(),
            final(self).picture() == old(self).picture(),
            final(self).marked(*old(self), y0 as int, y1 as int),
    {
        let mut y: usize = y0;
        while y < y1
            invariant
                y0 <= y <= y1 <= H,
                self.px == old(self).px,
                forall|i: int|
                    0 <= i < H ==> #[trigger] self.dirty@[i] == (old(self).dirty@[i] || y0 <= i
                        < y),
            decreases y1 - y,
        {
            self.dirty[y] = true;
            y += 1;
        }
    }

    /// Set one pixel. Out-of-bounds coordinates are ignored.
    pub fn put(&mut self, x: usize, y: usize, c: u16)
        requires
            old(self).wf(),
        ensures
            old(self).drawn(*final(self)),
            final(self).picture() == if x < W && y < H {
                old(self).picture().update(y * W + x, c)
            } else {
                old(self).picture()
            },
            x < W && y < H ==> final(self).marked(*old(self), y as int, y + 1),
            !(x < W && y < H) ==> *final(self) == *old(self),
    {
        if x >= W || y >= H {
            return;
        }
        self.px[y * W + x] = c;
        self.mark(y, y + 1);
        assert(row(y * W + x) == y);
    }

    /// Fill the entire frame with one colour.
    pub fn clear(&mut self, c: u16)
        requires
            old(self).wf(),
        ensures
            old(self).drawn(*final(self)),
            final(self).picture() == plain(c),
            final(self).all_dirty(),
    {
        let mut k: usize = 0;
        while k < PIXELS
            invariant
                k <= PIXELS,
                self.px@.len() == PIXELS,
                forall|i: int| 0 <= i < k ==> #[trigger] self.px@[i] == c,
            decreases PIXELS - k,
        {
            self.px[k] = c;
            k += 1;
        }
        assert(self.px@ =~= plain(c));
        self.dirty = [true; H];
    }

    /// Fill an axis-aligned rectangle, clipped to the frame.
    pub fn rect(&mut self, x: usize, y: usize, w: usize, h: usize, c: u16)
        requires
            old(self).wf(),
        ensures
            old(self).drawn(*final(self)),
            final(self).picture() == with_rect(
                old(self).picture(),
                x as int,
                y as int,
                w as int,
                h as int,
                c,
            ),
            x < W && y < H && w > 0 && h > 0 ==> final(self).marked(
                *old(self),
                y as int,
                y + h,
            ),
            !(x < W && y < H && w > 0 && h > 0) ==> *final(self) == *old(self),
    {
        let x1: usize = if w < W && x < W - w {
            x + w
        } else {
            W
        };
        let y1: usize = if h < H && y < H - h {
            y + h
        } else {
            H
        };
        if x >= W || y >= H || w == 0 || h == 0 {
            assert(self.px@ =~= with_rect(
                old(self).px@,
                x as int,
                y as int,
                w as int,
                h as int,
                c,
            ));
            return;
        }
        let ghost before = self.px@;
        let mut r: usize = y;
        while r < y1
            invariant
                x < x1 <= W,
                y <= r <= y1 <= H,
                self.px@.len() == PIXELS,
                before.len() == PIXELS,
                self.dirty == old(self).dirty,
                forall|k: int|
                    0 <= k < PIXELS ==> #[trigger] self.px@[k] == if x <= col(k) < x1 && y <= row(k)
                        < r {
                        c
                    } else {
                        before[k]
                    },
            decreases y1 - r,
        {
            let mut q: usize = x;
            while q < x1
                invariant
                    x <= q <= x1 <= W,
                    y <= r < y1 <= H,
                    self.px@.len() == PIXELS,
                    before.len() == PIXELS,
                    self.dirty == old(self).dirty,
                    forall|k: int|
                        0 <= k < PIXELS ==> #[trigger] self.px@[k] == if x <= col(k) < x1 && (y
                            <= row(k) < r || (row(k) == r && col(k) < q)) {
                            c
                        } else {
                            before[k]
                        },
                decreases x1 - q,
            {
                let ghost prior = self.px@;
                self.px[r * W + q] = c;
                proof {
                    let at = (r * W + q) as int;
                    assert(col(at) == q && row(at) == r);
                    assert forall|k: int| 0 <= k < PIXELS implies #[trigger] self.px@[k] == if x
                        <= col(k) < x1 && (y <= row(k) < r || (row(k) == r && col(k) < q + 1)) {
                        c
                    } else {
                        before[k]
                    } by {
                        assert(k == row(k) * W + col(k));
                        if k != at {
                            assert(self.px@[k] == prior[k]);
                        }
                    }
                }
                q += 1;
            }
            assert forall|k: int| 0 <= k < PIXELS implies #[trigger] self.px@[k] == if x <= col(k)
                < x1 && y <= row(k) < r + 1 {
                c
            } else {
                before[k]
            } by {}
            r += 1;
        }
        proof {
            assert forall|k: int| 0 <= k < PIXELS implies #[trigger] self.px@[k] == (if inside(
                k,
                x as int,
                y as int,
                w as int,
                h as int,
            ) {
                c
            } else {
                before[k]
            }) by {
                assert(0 <= col(k) < W);
                assert(0 <= row(k) < H);
            }
            assert(self.px@ =~= with_rect(before, x as int, y as int, w as int, h as int, c));
        }
        self.mark(y, y1);
    }

    /// Draw a one-pixel rectangle outline.
    pub fn frame_rect(&mut self, x: usize, y: usize, w: usize, h: usize, c: u16)
        requires
            old(self).wf(),
            x + w <= usize::MAX,
            y + h <= usize::MAX,
        ensures
            old(self).drawn(*final(self)),
            final(self).picture() == with_outline(
                old(self).picture(),
                x as int,
                y as int,
                w as int,
                h as int,
                c,
            ),
            x < W && w > 0 ==> final(self).marked(*old(self), y as int, y + h),
            !(x < W && w > 0) ==> final(self).marked(*old(self), 0, 0),
    {
        if w == 0 || h == 0 {
            return;
        }
        self.rect(x, y, w, 1, c);
        self.rect(x, y + h - 1, w, 1, c);
        self.rect(x, y, 1, h, c);
        self.rect(x + w - 1, y, 1, h, c);
    }

    /// Raw pixel access, for callers that render into the buffer themselves.
    pub fn pixels_mut(&mut self) -> (r: &mut [u16])
        requires
            old(self).wf(),
        ensures
            r@ == old(self).picture(),
            final(self).picture() == final(r)@,
            final(self).all_dirty(),
            final(r)@.len() == r@.len() ==> final(self).wf(),
    {
        self.dirty = [true; H];
        self.px.as_mut_slice()
    }
}

impl Default for Frame {
    fn default() -> (r: Self)
        ensures
            r.wf(),
            r.picture() == plain(BLACK),
            r.all_dirty(),
    {
        Frame::new()
    }
}

/// One more place of a glyph: the text so far covers what it covered and what that place does.
proof fn lemma_covers_next(t: Line, n: int, m: int, l: int, px: int, py: int)
    ensures
        t.covers_to(n, m, l + 1, px, py) == (t.covers_to(n, m, l, px, py) || t.inks(
            n,
            l,
            m,
            px,
            py,
        )),
{
    if t.covers_to(n, m, l, px, py) {
        let (i, gx, gy) = choose|i: int, gx: int, gy: int|
            (i < n || (i == n && (gy < m || (gy == m && gx < l)))) && #[trigger] t.inks(
                i,
                gx,
                gy,
                px,
                py,
            );
        assert(t.inks(i, gx, gy, px, py));
    }
    if t.covers_to(n, m, l + 1, px, py) {
        let (i, gx, gy) = choose|i: int, gx: int, gy: int|
            (i < n || (i == n && (gy < m || (gy == m && gx < l + 1)))) && #[trigger] t.inks(
                i,
                gx,
                gy,
                px,
                py,
            );
        assert(t.inks(i, gx, gy, px, py));
    }
}

/// A row of a glyph is done: nothing more of it has ink.
proof fn lemma_covers_row(t: Line, n: int, m: int, px: int, py: int)
    ensures
        t.covers_to(n, m, t.font.w as int, px, py) == t.covers_to(n, m + 1, 0, px, py),
{
    if t.covers_to(n, m + 1, 0, px, py) {
        let (i, gx, gy) = choose|i: int, gx: int, gy: int|
            (i < n || (i == n && (gy < m + 1 || (gy == m + 1 && gx < 0)))) && #[trigger] t.inks(
                i,
                gx,
                gy,
                px,
                py,
            );
        assert(t.inks(i, gx, gy, px, py));
    }
    if t.covers_to(n, m, t.font.w as int, px, py) {
        let (i, gx, gy) = choose|i: int, gx: int, gy: int|
            (i < n || (i == n && (gy < m || (gy == m && gx < t.font.w)))) && #[trigger] t.inks(
                i,
                gx,
                gy,
                px,
                py,
            );
        assert(t.inks(i, gx, gy, px, py));
    }
}

/// A character is done.
proof fn lemma_covers_char(t: Line, n: int, px: int, py: int)
    ensures
        t.covers_to(n, t.font.h as int, 0, px, py) == t.covers_to(n + 1, 0, 0, px, py),
{
    if t.covers_to(n + 1, 0, 0, px, py) {
        let (i, gx, gy) = choose|i: int, gx: int, gy: int|
            (i < n + 1 || (i == n + 1 && (gy < 0 || (gy == 0 && gx < 0)))) && #[trigger] t.inks(
                i,
                gx,
                gy,
                px,
                py,
            );
        assert(t.inks(i, gx, gy, px, py));
    }
    if t.covers_to(n, t.font.h as int, 0, px, py) {
        let (i, gx, gy) = choose|i: int, gx: int, gy: int|
            (i < n || (i == n && (gy < t.font.h || (gy == t.font.h && gx < 0))))
                && #[trigger] t.inks(i, gx, gy, px, py);
        assert(t.inks(i, gx, gy, px, py));
    }
}

/// Characters that start past the right edge cover no place on the display.
proof fn lemma_covers_rest(t: Line, n: int, px: int, py: int)
    requires
        0 <= n <= t.text.len(),
        n == t.text.len() || t.x + n * t.advance() >= W,
        t.scale >= 0,
        px < W,
    ensures
        t.covers_to(n, 0, 0, px, py) == t.covers(px, py),
{
    if t.covers(px, py) {
        let (i, gx, gy) = choose|i: int, gx: int, gy: int| #[trigger] t.inks(i, gx, gy, px, py);
        assert(t.inks(i, gx, gy, px, py));
        if i >= n {
            assert(i * t.advance() >= n * t.advance()) by (nonlinear_arith)
                requires
                    i >= n,
                    t.advance() >= 0,
            ;
            assert(gx * t.scale >= 0) by (nonlinear_arith)
                requires
                    gx >= 0,
                    t.scale >= 0,
            ;
        }
    }
    if t.covers_to(n, 0, 0, px, py) {
        let (i, gx, gy) = choose|i: int, gx: int, gy: int|
            (i < n || (i == n && (gy < 0 || (gy == 0 && gx < 0)))) && #[trigger] t.inks(
                i,
                gx,
                gy,
                px,
                py,
            );
        assert(t.inks(i, gx, gy, px, py));
    }
}

/// Whether a row of the display has ink of the text drawn up to a place.
spec fn row_to(t: Line, n: int, m: int, l: int, py: int) -> bool {
    exists|px: int| 0 <= px < W && #[trigger] t.covers_to(n, m, l, px, py)
}

proof fn lemma_row_next(t: Line, n: int, m: int, l: int, py: int)
    requires
        0 <= n < t.text.len(),
        t.x + n * t.advance() + l * t.scale >= 0,
    ensures
        row_to(t, n, m, l + 1, py) == (row_to(t, n, m, l, py) || (t.font.inked(t.text[n], l, m)
            && t.x + n * t.advance() + l * t.scale < W && t.y + m * t.scale <= py < t.y + m
            * t.scale + t.scale)),
{
    let x0 = t.x + n * t.advance() + l * t.scale;
    if row_to(t, n, m, l + 1, py) {
        let px = choose|px: int| 0 <= px < W && #[trigger] t.covers_to(n, m, l + 1, px, py);
        lemma_covers_next(t, n, m, l, px, py);
    }
    if row_to(t, n, m, l, py) {
        let px = choose|px: int| 0 <= px < W && #[trigger] t.covers_to(n, m, l, px, py);
        lemma_covers_next(t, n, m, l, px, py);
        assert(t.covers_to(n, m, l + 1, px, py));
    }
    if t.font.inked(t.text[n], l, m) && x0 < W && t.y + m * t.scale <= py < t.y + m * t.scale
        + t.scale {
        assert(t.inks(n, l, m, x0, py));
        lemma_covers_next(t, n, m, l, x0, py);
        assert(t.covers_to(n, m, l + 1, x0, py));
    }
}

proof fn lemma_row_line(t: Line, n: int, m: int, py: int)
    ensures
        row_to(t, n, m, t.font.w as int, py) == row_to(t, n, m + 1, 0, py),
{
    let w = t.font.w as int;
    assert forall|px: int| 0 <= px < W implies #[trigger] t.covers_to(n, m, w, px, py)
        == t.covers_to(n, m + 1, 0, px, py) by {
        lemma_covers_row(t, n, m, px, py);
    }
    if row_to(t, n, m + 1, 0, py) {
        let px = choose|px: int| 0 <= px < W && #[trigger] t.covers_to(n, m + 1, 0, px, py);
        lemma_covers_row(t, n, m, px, py);
        assert(t.covers_to(n, m, w, px, py));
    }
}

proof fn lemma_row_char(t: Line, n: int, py: int)
    ensures
        row_to(t, n, t.font.h as int, 0, py) == row_to(t, n + 1, 0, 0, py),
{
    let h = t.font.h as int;
    assert forall|px: int| 0 <= px < W implies #[trigger] t.covers_to(n, h, 0, px, py)
        == t.covers_to(n + 1, 0, 0, px, py) by {
        lemma_covers_char(t, n, px, py);
    }
    if row_to(t, n + 1, 0, 0, py) {
        let px = choose|px: int| 0 <= px < W && #[trigger] t.covers_to(n + 1, 0, 0, px, py);
        lemma_covers_char(t, n, px, py);
        assert(t.covers_to(n, h, 0, px, py));
    }
}

proof fn lemma_row_rest(t: Line, n: int, py: int)
    requires
        0 <= n <= t.text.len(),
        n == t.text.len() || t.x + n * t.advance() >= W,
        t.scale >= 0,
    ensures
        row_to(t, n, 0, 0, py) == t.inks_row(py),
{
    if row_to(t, n, 0, 0, py) {
        let px = choose|px: int| 0 <= px < W && #[trigger] t.covers_to(n, 0, 0, px, py);
        lemma_covers_rest(t, n, px, py);
        assert(t.covers(px, py));
    }
    if t.inks_row(py) {
        let px = choose|px: int| 0 <= px < W && #[trigger] t.covers(px, py);
        lemma_covers_rest(t, n, px, py);
        assert(t.covers_to(n, 0, 0, px, py));
    }
}

/// The rows to send are those of `old`, and those with ink of the text drawn up to a place.
spec fn inked_to(new: Frame, old: Frame, t: Line, n: int, m: int, l: int) -> bool {
    forall|y: int|
        0 <= y < H ==> #[trigger] new.dirty(y) == (old.dirty(y) || row_to(t, n, m, l, y))
}

/// The picture with the text drawn up to a place.
spec fn text_to(px: Seq<u16>, t: Line, c: u16, n: int, m: int, l: int) -> Seq<u16> {
    Seq::new(
        PIXELS as nat,
        |k: int|
            if t.covers_to(n, m, l, col(k), row(k)) {
                c
            } else {
                px[k]
            },
    )
}

impl Frame {
    /// Fills the ink at one place of a glyph that starts at (`cx`, `y`).
    fn ink(
        &mut self,
        cx: usize,
        y: usize,
        gx: usize,
        gy: usize,
        scale: usize,
        c: u16,
    )
        requires
            old(self).wf(),
        ensures
            old(self).drawn(*final(self)),
            final(self).picture() == with_rect(
                old(self).picture(),
                cx + gx * scale,
                y + gy * scale,
                scale as int,
                scale as int,
                c,
            ),
            forall|r: int|
                0 <= r < H ==> #[trigger] final(self).dirty(r) == (old(self).dirty(r) || (cx + gx
                    * scale < W && y + gy * scale <= r < y + gy * scale + scale)),
    {
        let x0: u128 = cx as u128 + product(gx, scale);
        let y0: u128 = y as u128 + product(gy, scale);
        if x0 < W as u128 && y0 < H as u128 {
            self.rect(x0 as usize, y0 as usize, scale, scale, c);
        } else {
            assert(self.px@ =~= with_rect(
                self.px@,
                cx + gx * scale,
                y + gy * scale,
                scale as int,
                scale as int,
                c,
            ));
        }
    }

    /// Draw `text` at (`x`, `y`) in `font`, scaled `scale`x. Returns the end x.
    pub fn text(
        &mut self,
        x: usize,
        y: usize,
        font: &Font,
        scale: usize,
        c: u16,
        text: &str,
    ) -> (r: usize)
        requires
            old(self).wf(),
            x + W + font.w * scale <= usize::MAX,
        ensures
            old(self).drawn(*final(self)),
            final(self).picture() == with_text(
                old(self).picture(),
                Line { x: x as int, y: y as int, font: *font, scale: scale as int, text: text@ },
                c,
            ),
            final(self).inked(
                *old(self),
                Line { x: x as int, y: y as int, font: *font, scale: scale as int, text: text@ },
            ),
            r == x + drawn_chars(x as int, font.w * scale, text@.len() as int, 0) * (font.w
                * scale),
    {
        let cs = chars_of(text);
        let ghost t = Line {
            x: x as int,
            y: y as int,
            font: *font,
            scale: scale as int,
            text: text@,
        };
        let adv: usize = product(font.w, scale) as usize;
        let ghost before = self.px@;
        let mut cx: usize = x;
        let mut n: usize = 0;
        assert forall|px: int, py: int| !t.covers_to(0, 0, 0, px, py) by {}
        assert(self.px@ =~= text_to(before, t, c, 0, 0, 0));
        while n < cs.len()
            invariant_except_break
                n < cs@.len() ==> cx < W || n == 0,
            invariant
                cs@ == text@,
                n <= cs@.len(),
                t == (Line {
                    x: x as int,
                    y: y as int,
                    font: *font,
                    scale: scale as int,
                    text: text@,
                }),
                adv == font.w * scale,
                x + W + adv <= usize::MAX,
                cx == x + n * adv,
                cx <= x + W + adv,
                self.wf(),
                old(self).drawn(*self),
                before == old(self).px@,
                self.px@ == text_to(before, t, c, n as int, 0, 0),
                inked_to(*self, *old(self), t, n as int, 0, 0),
                drawn_chars(x as int, adv as int, text@.len() as int, 0) == n + (if n == 0 || cx < W {
                    drawn_chars(x as int, adv as int, text@.len() as int, n as int)
                } else {
                    0
                }),
            ensures
                n == cs@.len() || cx >= W,
                n > 0 || cs@.len() == 0,
            decreases cs@.len() - n,
        {
            let ch = cs[n];
            let mut gy: usize = 0;
            while gy < font.h
                invariant
                    cs@ == text@,
                    n < cs@.len(),
                    ch == text@[n as int],
                    gy <= font.h,
                    t == (Line {
                        x: x as int,
                        y: y as int,
                        font: *font,
                        scale: scale as int,
                        text: text@,
                    }),
                    adv == font.w * scale,
                    cx == x + n * adv,
                    cx < W || n == 0,
                    x + W + adv <= usize::MAX,
                    self.wf(),
                    old(self).drawn(*self),
                    before == old(self).px@,
                    self.px@ == text_to(before, t, c, n as int, gy as int, 0),
                    inked_to(*self, *old(self), t, n as int, gy as int, 0),
                decreases font.h - gy,
            {
                let mut gx: usize = 0;
                while gx < font.w
                    invariant
                        cs@ == text@,
                        n < cs@.len(),
                        ch == text@[n as int],
                        gy < font.h,
                        gx <= font.w,
                        t == (Line {
                            x: x as int,
                            y: y as int,
                            font: *font,
                            scale: scale as int,
                            text: text@,
                        }),
                        adv == font.w * scale,
                        cx == x + n * adv,
                        cx < W || n == 0,
                        x + W + adv <= usize::MAX,
                        self.wf(),
                        old(self).drawn(*self),
                        before == old(self).px@,
                        self.px@ == text_to(before, t, c, n as int, gy as int, gx as int),
                        inked_to(*self, *old(self), t, n as int, gy as int, gx as int),
                    decreases font.w - gx,
                {
                    let ghost prior = *self;
                    if font.pixel(ch, gx, gy) {
                        self.ink(cx, y, gx, gy, scale, c);
                        assert(old(self).drawn(*self)) by {
                            lemma_drawn_trans(*old(self), prior, *self);
                        }
                    }
                    proof {
                        let next = text_to(before, t, c, n as int, gy as int, gx + 1);
                        assert forall|k: int| 0 <= k < PIXELS implies #[trigger] self.px@[k]
                            == next[k] by {
                            lemma_covers_next(
                                t,
                                n as int,
                                gy as int,
                                gx as int,
                                col(k),
                                row(k),
                            );
                            assert(prior.px@[k] == text_to(
                                before,
                                t,
                                c,
                                n as int,
                                gy as int,
                                gx as int,
                            )[k]);
                        }
                        assert(self.px@ =~= next);
                        assert(gx * scale >= 0 && n * adv >= 0) by (nonlinear_arith)
                            requires
                                gx >= 0,
                                scale >= 0,
                                n >= 0,
                                adv >= 0,
                        ;
                        assert forall|r: int| 0 <= r < H implies #[trigger] self.dirty(r) == (
                        old(self).dirty(r) || row_to(t, n as int, gy as int, gx + 1, r)) by {
                            lemma_row_next(t, n as int, gy as int, gx as int, r);
                            assert(prior.dirty(r) == (old(self).dirty(r) || row_to(
                                t,
                                n as int,
                                gy as int,
                                gx as int,
                                r,
                            )));
                        }
                    }
                    gx += 1;
                }
                proof {
                    let next = text_to(before, t, c, n as int, gy + 1, 0);
                    assert forall|k: int| 0 <= k < PIXELS implies #[trigger] self.px@[k]
                        == next[k] by {
                        lemma_covers_row(t, n as int, gy as int, col(k), row(k));
                    }
                    assert(self.px@ =~= next);
                    assert forall|r: int| 0 <= r < H implies #[trigger] self.dirty(r) == (old(
                        self,
                    ).dirty(r) || row_to(t, n as int, gy + 1, 0, r)) by {
                        lemma_row_line(t, n as int, gy as int, r);
                    }
                }
                gy += 1;
            }
            proof {
                let next = text_to(before, t, c, n + 1, 0, 0);
                assert forall|k: int| 0 <= k < PIXELS implies #[trigger] self.px@[k] == next[k] by {
                    lemma_covers_char(t, n as int, col(k), row(k));
                }
                assert(self.px@ =~= next);
                assert forall|r: int| 0 <= r < H implies #[trigger] self.dirty(r) == (old(
                    self,
                ).dirty(r) || row_to(t, n + 1, 0, 0, r)) by {
                    lemma_row_char(t, n as int, r);
                }
                assert((n + 1) * adv == n * adv + adv) by (nonlinear_arith);
            }
            cx += adv;
            n += 1;
            if cx >= W {
                break;
            }
        }
        proof {
            assert forall|k: int| 0 <= k < PIXELS implies #[trigger] self.px@[k] == with_text(
                before,
                t,
                c,
            )[k] by {
                lemma_covers_rest(t, n as int, col(k), row(k));
            }
            assert(self.px@ =~= with_text(before, t, c));
            assert forall|r: int| 0 <= r < H implies #[trigger] self.dirty(r) == (old(self).dirty(
                r,
            ) || t.inks_row(r)) by {
                lemma_row_rest(t, n as int, r);
            }
        }
        cx
    }

    /// Draw `text` centred inside the horizontal span [`x`, `x + w`).
    pub fn text_centred(
        &mut self,
        x: usize,
        w: usize,
        y: usize,
        font: &Font,
        scale: usize,
        c: u16,
        text: &str,
    )
        requires
            old(self).wf(),
            x + w + W + font.w * scale <= usize::MAX,
            text@.len() * font.w * scale <= usize::MAX,
            text@.len() * font.w <= usize::MAX,
        ensures
            old(self).drawn(*final(self)),
            final(self).picture() == with_centred(
                old(self).picture(),
                x as int,
                w as int,
                y as int,
                *font,
                scale as int,
                c,
                text@,
            ),
            final(self).inked(
                *old(self),
                Line {
                    x: centred(x as int, w as int, *font, scale as int, text@),
                    y: y as int,
                    font: *font,
                    scale: scale as int,
                    text: text@,
                },
            ),
    {
        let cs = chars_of(text);
        let tw: usize = cs.len() * font.w * scale;
        let sx: usize = if tw >= w {
            x
        } else {
            x + (w - tw) / 2
        };
        self.text(sx, y, font, scale, c, text);
    }
}

/// How many of the characters from `n` on are drawn: the first is, and each further one that does
/// not start past the right edge.
pub open spec fn drawn_chars(x: int, adv: int, len: int, n: int) -> int
    decreases len - n,
{
    if n >= len {
        0
    } else if x + (n + 1) * adv >= W {
        1
    } else {
        1 + drawn_chars(x, adv, len, n + 1)
    }
}

/// Drawing twice is drawing.
pub proof fn lemma_drawn_trans(a: Frame, b: Frame, c: Frame)
    requires
        a.drawn(b),
        b.drawn(c),
    ensures
        a.drawn(c),
{
    assert forall|k: int| 0 <= k < PIXELS && #[trigger] c.picture()[k] != a.picture()[k] implies c.dirty(
        row(k),
    ) by {
        if b.picture()[k] != a.picture()[k] {
            assert(b.dirty(row(k)));
        }
    }
}

/// A product that cannot overflow.
fn product(a: usize, b: usize) -> (r: u128)
    ensures
        r == a * b,
        r <= usize::MAX * usize::MAX,
{
    assert(0 <= a * b <= usize::MAX * usize::MAX) by (nonlinear_arith)
        requires
            0 <= a <= usize::MAX,
            0 <= b <= usize::MAX,
    ;
    assert(usize::MAX * usize::MAX + usize::MAX <= u128::MAX) by (nonlinear_arith)
        requires
            usize::MAX <= 0xffff_ffff_ffff_ffff,
    ;
    a as u128 * b as u128
}

// The command stream.

/// A 16-bit number, upper byte first.
pub open spec fn be16(v: u16) -> Seq<u8> {
    seq![(v / 256) as u8, (v % 256) as u8]
}

/// A 32-bit number, upper byte first.
pub open spec fn be32(v: u32) -> Seq<u8> {
    be16((v / 0x1_0000) as u16) + be16((v % 0x1_0000) as u16)
}

/// The first `n` pixels, each upper byte first.
pub open spec fn pixel_bytes(px: Seq<u16>, n: int) -> Seq<u8>
    decreases n,
{
    if n <= 0 {
        Seq::empty()
    } else {
        pixel_bytes(px, n - 1) + be16(px[n - 1])
    }
}

/// The stream before the pixels: the header, the rectangle, and how many words follow.
pub open spec fn blit_head(index: u8, x: int, y: int, w: int, h: int) -> Seq<u8> {
    seq![0x84u8, 0x00, index, 0x60, 0x00, 0x00, 0x00, 0x00] + be16(x as u16) + be16(y as u16)
        + be16(w as u16) + be16(h as u16) + seq![0x02u8, 0x00, 0x00, 0x00] + be32(
        ((w * h) / 2) as u32,
    )
}

/// The stream after the pixels.
pub open spec fn blit_tail() -> Seq<u8> {
    seq![0x02u8, 0x00, 0x00, 0x00, 0x03, 0x00, 0x00, 0x00, 0x40, 0x00, 0x00, 0x00]
}

/// The stream that sends a rectangle of pixels to one display.
pub open spec fn blit_stream(index: u8, x: int, y: int, w: int, h: int, px: Seq<u16>) -> Seq<u8> {
    blit_head(index, x, y, w, h) + pixel_bytes(px, w * h) + blit_tail()
}

/// Why a rectangle cannot be sent.
#[derive(Debug, Clone, Copy, PartialEq, Eq, Structural)]
pub enum BlitError {
    /// Fewer pixels than the rectangle has: how many, its width and its height.
    TooFew(usize, usize, usize),
    /// An odd number of pixels; the length field counts 32-bit words.
    Odd(usize),
}

impl BlitError {
    /// The message for it.
    pub open spec fn says(self) -> Seq<char> {
        match self {
            BlitError::TooFew(n, w, h) => "blit: "@ + dec(n as nat) + " pixels supplied for "@
                + dec(w as nat) + "x"@ + dec(h as nat),
            BlitError::Odd(n) => "blit: pixel count "@ + dec(n as nat) + " must be even"@,
        }
    }

    /// The message for it.
    pub fn message(&self) -> (r: String)
        ensures
            r@ == self.says(),
    {
        let mut s = String::new();
        match self {
            BlitError::TooFew(n, w, h) => {
                s.append("blit: ");
                push_dec(&mut s, *n as u64);
                s.append(" pixels supplied for ");
                push_dec(&mut s, *w as u64);
                s.append("x");
                push_dec(&mut s, *h as u64);
            },
            BlitError::Odd(n) => {
                s.append("blit: pixel count ");
                push_dec(&mut s, *n as u64);
                s.append(" must be even");
            },
        }
        assert(s@ =~= self.says());
        s
    }
}

fn push_be16(b: &mut Vec<u8>, v: u16)
    ensures
        final(b)@ == old(b)@ + be16(v),
{
    b.push((v / 256) as u8);
    b.push((v % 256) as u8);
    assert(b@ =~= old(b)@ + be16(v));
}

fn push_be32(b: &mut Vec<u8>, v: u32)
    ensures
        final(b)@ == old(b)@ + be32(v),
{
    push_be16(b, (v / 0x1_0000) as u16);
    push_be16(b, (v % 0x1_0000) as u16);
    assert(b@ =~= old(b)@ + be32(v));
}

fn push_word(b: &mut Vec<u8>, first: u8)
    ensures
        final(b)@ == old(b)@ + seq![first, 0u8, 0, 0],
{
    b.push(first);
    b.push(0);
    b.push(0);
    b.push(0);
    assert(b@ =~= old(b)@ + seq![first, 0u8, 0, 0]);
}

/// The stream that sends an arbitrary rectangle of RGB565 pixels to one display; nothing for an
/// empty rectangle.
pub fn blit(
    index: u8,
    x: usize,
    y: usize,
    w: usize,
    h: usize,
    px: &[u16],
) -> (r: Result<Option<Vec<u8>>, BlitError>)
    ensures
        match r {
            Ok(None) => w == 0 || h == 0,
            Ok(Some(b)) => w > 0 && h > 0 && px@.len() >= w * h && (w * h) % 2 == 0 && b@
                == blit_stream(index, x as int, y as int, w as int, h as int, px@),
            Err(BlitError::TooFew(n, a, b)) => w > 0 && h > 0 && px@.len() < w * h && n
                == px@.len() && a == w && b == h,
            Err(BlitError::Odd(n)) => w > 0 && h > 0 && px@.len() >= w * h && (w * h) % 2 == 1 && n
                == w * h,
        },
{
    if w == 0 || h == 0 {
        return Ok(None);
    }
    let area: u128 = product(w, h);
    if (px.len() as u128) < area {
        return Err(BlitError::TooFew(px.len(), w, h));
    }
    let n: usize = area as usize;
    if n % 2 != 0 {
        return Err(BlitError::Odd(n));
    }
    let mut b: Vec<u8> = Vec::new();
    b.push(0x84);
    b.push(0x00);
    b.push(index);
    b.push(0x60);
    b.push(0x00);
    b.push(0x00);
    b.push(0x00);
    b.push(0x00);
    push_be16(&mut b, #[verifier::truncate] (x as u16));
    push_be16(&mut b, #[verifier::truncate] (y as u16));
    push_be16(&mut b, #[verifier::truncate] (w as u16));
    push_be16(&mut b, #[verifier::truncate] (h as u16));
    push_word(&mut b, 0x02);
    push_be32(&mut b, #[verifier::truncate] ((n / 2) as u32));
    assert(b@ =~= blit_head(index, x as int, y as int, w as int, h as int));
    let ghost head = b@;
    let mut i: usize = 0;
    while i < n
        invariant
            i <= n <= px@.len(),
            b@ =~= head + pixel_bytes(px@, i as int),
        decreases n - i,
    {
        push_be16(&mut b, px[i]);
        i += 1;
    }
    push_word(&mut b, 0x02);
    push_word(&mut b, 0x03);
    push_word(&mut b, 0x40);
    assert(b@ =~= blit_stream(index, x as int, y as int, w as int, h as int, px@));
    Ok(Some(b))
}

impl Frame {
    /// The rows of the picture from `lo` up to `hi`.
    pub open spec fn rows(self, lo: int, hi: int) -> Seq<u16> {
        self.picture().subrange(lo * W, hi * W)
    }

    /// One past the last row of the run of dirty rows from `y` on.
    pub open spec fn run_end(self, y: int) -> int
        decreases H - y,
    {
        if self.dirty(y) {
            self.run_end(y + 1)
        } else {
            y
        }
    }

    /// The stream that sends the rows `lo..hi`.
    pub open spec fn row_stream(self, index: u8, lo: int, hi: int) -> Seq<u8> {
        blit_stream(index, 0, lo, W as int, hi - lo, self.rows(lo, hi))
    }

    /// The streams that send the dirty rows from `y` on, one for each run of them.
    pub open spec fn streams(self, index: u8, y: int) -> Seq<Seq<u8>>
        decreases H - y,
        via Self::streams_decreases
    {
        if y < 0 || y >= H {
            Seq::empty()
        } else if self.dirty(y) {
            seq![self.row_stream(index, y, self.run_end(y))] + self.streams(index, self.run_end(y))
        } else {
            self.streams(index, y + 1)
        }
    }

    #[via_fn]
    proof fn streams_decreases(self, index: u8, y: int) {
        self.lemma_run_end(y);
    }

    pub proof fn lemma_run_end(self, y: int)
        ensures
            self.dirty(y) ==> y < self.run_end(y) <= H,
            forall|i: int| y <= i < self.run_end(y) ==> #[trigger] self.dirty(i),
            !self.dirty(self.run_end(y)),
        decreases H - y,
    {
        if self.dirty(y) {
            self.lemma_run_end(y + 1);
        }
    }

    /// The streams that send the dirty rows to display `index` (0 = left, 1 = right), one for each
    /// run of them; none for a clean frame.
    pub fn pending(&self, index: u8) -> (r: Vec<Vec<u8>>)
        requires
            self.wf(),
        ensures
            byte_views(r@) == self.streams(index, 0),
    {
        let mut out: Vec<Vec<u8>> = Vec::new();
        let mut y: usize = 0;
        assert(byte_views(out@) =~= Seq::empty());
        while y < H
            invariant
                y <= H,
                self.wf(),
                byte_views(out@) + self.streams(index, y as int) =~= self.streams(index, 0),
            decreases H - y,
        {
            if self.dirty[y] {
                assert(self.dirty(y as int));
                let mut end: usize = y + 1;
                proof {
                    self.lemma_run_end(y as int);
                }
                while end < H && self.dirty[end]
                    invariant
                        y < end <= H,
                        self.run_end(y as int) == self.run_end(end as int),
                    decreases H - end,
                {
                    assert(self.dirty(end as int));
                    end += 1;
                }
                assert(self.run_end(end as int) == end);
                let stream = self.send_rows(index, y, end);
                let ghost prior = out@;
                out.push(stream);
                assert(byte_views(out@) =~= byte_views(prior).push(stream@));
                y = end;
            } else {
                y += 1;
            }
        }
        out
    }

    fn send_rows(&self, index: u8, lo: usize, hi: usize) -> (r: Vec<u8>)
        requires
            self.wf(),
            lo < hi <= H,
        ensures
            r@ == self.row_stream(index, lo as int, hi as int),
    {
        let count: usize = hi - lo;
        let mut px: Vec<u16> = Vec::new();
        let end: usize = hi * W;
        let start: usize = lo * W;
        let mut k: usize = start;
        while k < end
            invariant
                start <= k <= end <= PIXELS,
                self.px@.len() == PIXELS,
                px@ =~= self.px@.subrange(start as int, k as int),
            decreases end - k,
        {
            px.push(self.px[k]);
            k += 1;
        }
        assert(W * count == end - start);
        match blit(index, 0, lo, W, count, &px) {
            Ok(Some(b)) => b,
            _ => Vec::new(),
        }
    }

    /// Record that the dirty rows were sent.
    pub fn mark_flushed(&mut self)
        requires
            old(self).wf(),
        ensures
            final(self).wf(),
            final(self).picture() == old(self).picture(),
            final(self).clean(),
    {
        self.dirty = [false; H];
    }

    /// What a display shows after it got the rows `lo..hi` of this frame.
    pub open spec fn sent_to(self, shown: Seq<u16>, lo: int, hi: int) -> Seq<u16> {
        Seq::new(
            PIXELS as nat,
            |k: int|
                if lo <= row(k) < hi {
                    self.rows(lo, hi)[k - lo * W]
                } else {
                    shown[k]
                },
        )
    }

    /// What is not to be sent is shown already.
    pub open spec fn follows(self, shown: Seq<u16>) -> bool {
        &&& self.wf()
        &&& forall|k: int|
            0 <= k < PIXELS && !self.dirty(row(k)) ==> #[trigger] self.picture()[k] == shown[k]
    }

    /// Drawing never loses track of what the display shows.
    pub proof fn law_drawing_keeps_track(self, new: Frame, shown: Seq<u16>)
        requires
            self.follows(shown),
            self.drawn(new),
        ensures
            new.follows(shown),
    {
        assert forall|k: int| 0 <= k < PIXELS && !new.dirty(row(k)) implies #[trigger] new.picture()[k]
            == shown[k] by {
            assert(new.picture()[k] == self.picture()[k]);
        }
    }

    /// What a display shows after it got the runs of dirty rows from `y` on.
    pub open spec fn flushed_to(self, shown: Seq<u16>, y: int) -> Seq<u16>
        decreases H - y,
        via Self::flushed_decreases
    {
        if y < 0 || y >= H {
            shown
        } else if self.dirty(y) {
            self.flushed_to(self.sent_to(shown, y, self.run_end(y)), self.run_end(y))
        } else {
            self.flushed_to(shown, y + 1)
        }
    }

    #[via_fn]
    proof fn flushed_decreases(self, shown: Seq<u16>, y: int) {
        self.lemma_run_end(y);
    }

    proof fn lemma_flushed(self, shown: Seq<u16>, y: int)
        requires
            self.follows(shown),
            shown.len() == PIXELS,
            0 <= y <= H,
            forall|k: int| 0 <= k < PIXELS && row(k) < y ==> #[trigger] self.picture()[k] == shown[k],
        ensures
            self.flushed_to(shown, y) == self.picture(),
        decreases H - y,
    {
        if y >= H {
            assert forall|k: int| 0 <= k < PIXELS implies #[trigger] shown[k] == self.picture()[k] by {
                assert(row(k) < H);
            }
            assert(shown =~= self.picture());
        } else if self.dirty(y) {
            self.lemma_run_end(y);
            let e = self.run_end(y);
            let after = self.sent_to(shown, y, e);
            assert forall|k: int| 0 <= k < PIXELS && row(k) < e implies #[trigger] self.picture()[k]
                == after[k] by {
                if y <= row(k) {
                    assert(y * W <= k < e * W);
                    assert(self.rows(y, e)[k - y * W] == self.picture()[k]);
                }
            }
            assert forall|k: int| 0 <= k < PIXELS && !self.dirty(row(k)) implies #[trigger] self.picture()[k]
                == after[k] by {}
            self.lemma_flushed(after, e);
        } else {
            assert forall|k: int| 0 <= k < PIXELS && row(k) < y + 1 implies #[trigger] self.picture()[k]
                == shown[k] by {}
            self.lemma_flushed(shown, y + 1);
        }
    }

    /// Sending the dirty rows makes the display show the whole picture.
    pub proof fn law_flush_shows_the_picture(self, shown: Seq<u16>)
        requires
            self.follows(shown),
            shown.len() == PIXELS,
        ensures
            self.flushed_to(shown, 0) == self.picture(),
    {
        self.lemma_flushed(shown, 0);
    }

    /// How many of the rows from `y` on are to be sent.
    pub open spec fn dirty_rows(self, y: int) -> int
        decreases H - y,
    {
        if y < 0 || y >= H {
            0
        } else {
            (if self.dirty(y) {
                1int
            } else {
                0
            }) + self.dirty_rows(y + 1)
        }
    }

    proof fn lemma_run_rows(self, y: int)
        requires
            0 <= y,
            self.dirty(y),
        ensures
            self.dirty_rows(y) == self.run_end(y) - y + self.dirty_rows(self.run_end(y)),
        decreases H - y,
    {
        if self.dirty(y + 1) {
            self.lemma_run_rows(y + 1);
        } else {
            assert(self.run_end(y + 1) == y + 1);
        }
    }

    proof fn lemma_streams_length(self, index: u8, y: int)
        requires
            self.wf(),
            0 <= y,
        ensures
            total_length(self.streams(index, y)) == 2 * W * self.dirty_rows(y) + 36 * self.streams(
                index,
                y,
            ).len(),
        decreases H - y,
    {
        if y < H {
            if self.dirty(y) {
                self.lemma_run_end(y);
                self.lemma_run_rows(y);
                let e = self.run_end(y);
                assert(self.rows(y, e).len() == W * (e - y));
                law_stream_length(index, 0, y, W as int, e - y, self.rows(y, e));
                self.lemma_streams_length(index, e);
                let first = self.row_stream(index, y, e);
                let rest = self.streams(index, e);
                assert((seq![first] + rest).skip(1) =~= rest);
            } else {
                self.lemma_streams_length(index, y + 1);
            }
        }
    }

    /// A flush sends the dirty rows and nothing else: two bytes for each of their pixels, and a
    /// fixed frame around each run.
    pub proof fn law_flush_sends_the_dirty_rows(self, index: u8)
        requires
            self.wf(),
        ensures
            total_length(self.streams(index, 0)) == 960 * self.dirty_rows(0) + 36 * self.streams(
                index,
                0,
            ).len(),
    {
        self.lemma_streams_length(index, 0);
    }
}

/// The bytes of each.
pub open spec fn byte_views(v: Seq<Vec<u8>>) -> Seq<Seq<u8>> {
    v.map_values(|b: Vec<u8>| b@)
}

/// How many bytes some streams have together.
pub open spec fn total_length(v: Seq<Seq<u8>>) -> int
    decreases v.len(),
{
    if v.len() == 0 {
        0
    } else {
        v[0].len() + total_length(v.skip(1))
    }
}

proof fn lemma_pixel_byte(px: Seq<u16>, n: int, i: int)
    requires
        0 <= i < n,
    ensures
        pixel_bytes(px, n).len() == 2 * n,
        256 * pixel_bytes(px, n)[2 * i] + pixel_bytes(px, n)[2 * i + 1] == px[i],
    decreases n,
{
    lemma_pixel_bytes_len(px, n);
    lemma_pixel_bytes_len(px, n - 1);
    if i < n - 1 {
        lemma_pixel_byte(px, n - 1, i);
    }
}

/// What a display reads from a stream: which display it is for, the corner and the size of the
/// rectangle, how many pairs of pixels follow, and each pixel, all upper byte first.
pub proof fn law_a_stream_says_where_and_what(
    index: u8,
    x: int,
    y: int,
    w: int,
    h: int,
    px: Seq<u16>,
    i: int,
)
    requires
        0 <= x <= 0xffff,
        0 <= y <= 0xffff,
        0 <= w <= 0xffff,
        0 <= h <= 0xffff,
        (w * h) % 2 == 0,
        0 <= i < w * h,
    ensures
        ({
            let b = blit_stream(index, x, y, w, h, px);
            let n = 24 + 2 * (w * h);
            &&& b.len() == n + 12
            &&& b[0] == 0x84 && b[1] == 0 && b[2] == index && b[3] == 0x60
            &&& 256 * b[8] + b[9] == x
            &&& 256 * b[10] + b[11] == y
            &&& 256 * b[12] + b[13] == w
            &&& 256 * b[14] + b[15] == h
            &&& b[16] == 2
            &&& 2 * (0x100_0000 * b[20] + 0x1_0000 * b[21] + 256 * b[22] + b[23]) == w * h
            &&& 256 * b[24 + 2 * i] + b[25 + 2 * i] == px[i]
            &&& b[n] == 2 && b[n + 4] == 3 && b[n + 8] == 0x40
        }),
{
    let b = blit_stream(index, x, y, w, h, px);
    let m = w * h;
    let head = blit_head(index, x, y, w, h);
    let mid = pixel_bytes(px, m);
    assert(0 <= m <= 0xffff * 0xffff) by (nonlinear_arith)
        requires
            m == w * h,
            0 <= w <= 0xffff,
            0 <= h <= 0xffff,
    ;
    lemma_pixel_byte(px, m, i);
    assert(head.len() == 24);
    let c = (m / 2) as u32;
    let (hi, lo) = ((c / 0x1_0000) as u16, (c % 0x1_0000) as u16);
    assert(head[20] == (hi / 256) as u8);
    assert(head[21] == (hi % 256) as u8);
    assert(head[22] == (lo / 256) as u8);
    assert(head[23] == (lo % 256) as u8);
    assert(c == 0x1_0000 * hi + lo);
    assert(b[24 + 2 * i] == mid[2 * i]);
    assert(b[25 + 2 * i] == mid[2 * i + 1]);
}

/// The stream of some rows puts them where they are on the display, over its whole width.
pub proof fn law_rows_are_sent_to_their_place(f: Frame, index: u8, lo: int, hi: int, x: int, y: int)
    requires
        f.wf(),
        0 <= lo <= y < hi <= 272,
        0 <= x < 480,
    ensures
        ({
            let b = f.row_stream(index, lo, hi);
            let i = 480 * (y - lo) + x;
            &&& b[2] == index
            &&& 256 * b[8] + b[9] == 0
            &&& 256 * b[10] + b[11] == lo
            &&& 256 * b[12] + b[13] == 480
            &&& 256 * b[14] + b[15] == hi - lo
            &&& 256 * b[24 + 2 * i] + b[25 + 2 * i] == f.picture()[480 * y + x]
        }),
{
    let i = 480 * (y - lo) + x;
    law_a_stream_says_where_and_what(index, 0, lo, W as int, hi - lo, f.rows(lo, hi), i);
    assert(f.rows(lo, hi)[i] == f.picture()[480 * y + x]);
}

/// The streams of a flush: a run of rows that are to be sent, with none next to it, is one of them.
pub proof fn law_a_run_of_dirty_rows_is_sent(f: Frame, index: u8, lo: int, hi: int)
    requires
        f.wf(),
        0 <= lo < hi <= 272,
        forall|y: int| lo <= y < hi ==> #[trigger] f.dirty(y),
        !f.dirty(hi),
        !f.dirty(lo - 1),
    ensures
        f.streams(index, 0).contains(f.row_stream(index, lo, hi)),
{
    f.lemma_run_is_sent(index, lo, hi, 0);
}

impl Frame {
    proof fn lemma_run_is(self, lo: int, hi: int)
        requires
            lo <= hi,
            forall|y: int| lo <= y < hi ==> #[trigger] self.dirty(y),
            !self.dirty(hi),
        ensures
            self.run_end(lo) == hi,
        decreases hi - lo,
    {
        if lo < hi {
            assert(self.dirty(lo));
            self.lemma_run_is(lo + 1, hi);
        }
    }

    proof fn lemma_run_is_sent(self, index: u8, lo: int, hi: int, y: int)
        requires
            0 <= y <= lo < hi <= H,
            forall|k: int| lo <= k < hi ==> #[trigger] self.dirty(k),
            !self.dirty(hi),
            !self.dirty(lo - 1),
        ensures
            self.streams(index, y).contains(self.row_stream(index, lo, hi)),
        decreases lo - y,
    {
        let it = self.row_stream(index, lo, hi);
        if y == lo {
            assert(self.dirty(lo));
            self.lemma_run_is(lo, hi);
            assert(self.streams(index, y)[0] == it);
        } else if self.dirty(y) {
            self.lemma_run_end(y);
            let e = self.run_end(y);
            assert(e < lo) by {
                if e >= lo {
                    assert(self.dirty(lo - 1));
                }
            }
            self.lemma_run_is_sent(index, lo, hi, e);
            let rest = self.streams(index, e);
            let k = choose|k: int| 0 <= k < rest.len() && rest[k] == it;
            assert(self.streams(index, y)[k + 1] == it);
        } else {
            self.lemma_run_is_sent(index, lo, hi, y + 1);
        }
    }
}

/// The stream of a rectangle has a fixed frame around two bytes for each pixel.
pub proof fn law_stream_length(index: u8, x: int, y: int, w: int, h: int, px: Seq<u16>)
    requires
        w >= 0,
        h >= 0,
        px.len() >= w * h,
    ensures
        blit_stream(index, x, y, w, h, px).len() == 36 + 2 * (w * h),
{
    lemma_pixel_bytes_len(px, w * h);
}

proof fn lemma_pixel_bytes_len(px: Seq<u16>, n: int)
    ensures
        pixel_bytes(px, n).len() == if n > 0 {
            2 * n
        } else {
            0
        },
    decreases n,
{
    if n > 0 {
        lemma_pixel_bytes_len(px, n - 1);
    }
}

/// Characters are drawn up to the right edge: the first always, each further one only where it
/// starts before the edge, and none is left out that does.
pub proof fn law_text_is_drawn_up_to_the_edge(x: int, adv: int, len: int, n: int, j: int)
    requires
        0 <= n < len,
        adv > 0,
    ensures
        1 <= drawn_chars(x, adv, len, n) <= len - n,
        0 < j < drawn_chars(x, adv, len, n) ==> x + (n + j) * adv < W,
        n + drawn_chars(x, adv, len, n) < len ==> x + (n + drawn_chars(x, adv, len, n)) * adv >= W,
    decreases len - n,
{
    reveal_with_fuel(drawn_chars, 2);
    if n + 1 < len && x + (n + 1) * adv < W {
        law_text_is_drawn_up_to_the_edge(x, adv, len, n + 1, j - 1);
        assert(n + 1 + (j - 1) == n + j);
    }
}

} // verus!
