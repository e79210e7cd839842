//! Learning which LEDs decode colour: only those glow, and each button that does is pressed.
//!
//! A colour LED reads its byte as `(palette << 2) | level` while a monochrome one reads it as
//! brightness, so a byte of palette 1 and level 1 lights the colour ones dimly and leaves the
//! monochrome ones effectively dark. Pressing each button that glows marks it, which is the only
//! way to tell the two kinds apart without a datasheet.
use crate::config::maybe_view;
use crate::hid::ControlState;
use crate::learn::buttons::{name_on_bit, note_views, push_note};
use crate::learn::{complain, complained, live, live_bits, say, Note, NoteView};
use crate::namemap::{lookup, position};
use crate::profile::{Control, Profile};
use crate::text::{
    after_prefix, chars_of, dec, has_prefix, joined, parse_uint, push_dec, push_joined, read_uint,
    same, split_words, strip_prefix, views, words,
};
use vstd::prelude::*;

verus! {

/// The byte that lights only the colour LEDs: palette 1 at level 1.
pub const COLOUR_ONLY: u8 = 0x05;

/// The palette index that marked LEDs get where none is asked for.
pub const DEFAULT_PALETTE: u8 = 17;

/// What the first of the arguments from `i` on that begins with `--palette=` gives.
pub open spec fn palette_arg(args: Seq<Seq<char>>, i: int) -> Option<Seq<char>>
    decreases args.len() - i,
{
    if i < 0 || i >= args.len() {
        None
    } else if has_prefix(args[i], "--palette="@) {
        after_prefix(args[i], "--palette="@)
    } else {
        palette_arg(args, i + 1)
    }
}

/// The palette index that is asked for.
pub open spec fn palette_of(args: Seq<Seq<char>>) -> u8 {
    match palette_arg(args, 0) {
        Some(v) => match read_uint(v, 255) {
            Some(n) => n as u8,
            None => DEFAULT_PALETTE,
        },
        None => DEFAULT_PALETTE,
    }
}

/// The palette index that is asked for.
pub fn palette(args: &Vec<String>) -> (r: u8)
    ensures
        r == palette_of(views(args@)),
{
    let ghost all = views(args@);
    let mut i: usize = 0;
    while i < args.len()
        invariant
            i <= args@.len(),
            all == views(args@),
            all.len() == args@.len(),
            palette_arg(all, 0) == palette_arg(all, i as int),
        decreases args@.len() - i,
    {
        assert(all[i as int] == args@[i as int]@);
        if let Some(v) = strip_prefix(args[i].as_str(), "--palette=") {
            let cs = chars_of(v.as_str());
            return match parse_uint(&cs, 255) {
                Some(n) => n as u8,
                None => DEFAULT_PALETTE,
            };
        }
        i += 1;
    }
    DEFAULT_PALETTE
}

/// Whether a typed line ends the session.
pub fn is_done(line: &str) -> (r: bool)
    ensures
        r == (words(line@).len() > 0 && (words(line@)[0] == "done"@ || words(line@)[0] == "q"@)),
{
    let w = split_words(line);
    if w.len() == 0 {
        return false;
    }
    assert(views(w@)[0] == w@[0]@);
    same(w[0].as_str(), "done") || same(w[0].as_str(), "q")
}

/// The controls with the named one marked as a colour LED.
pub open spec fn with_colour(
    e: Seq<(String, Control)>,
    name: Seq<char>,
    palette: u8,
) -> Seq<(String, Control)> {
    let p = position(e, name) as int;
    if p < e.len() {
        e.update(p, (e[p].0, Control { led_colour: Some(palette), ..e[p].1 }))
    } else {
        e
    }
}

/// What a report comes to.
pub enum Marking {
    /// Nothing is held.
    Released,
    /// The same button is still held.
    Held,
    /// The bit has no name.
    Unnamed(usize),
    /// This button was pressed.
    Pressed(usize, Seq<char>),
}

/// What a report comes to, given the bit that was acted on last. Only the transition counts, not
/// every report while held.
pub open spec fn marking_of(
    e: Seq<(String, Control)>,
    down: Seq<usize>,
    last: Option<usize>,
) -> Marking {
    if down.len() == 0 {
        Marking::Released
    } else if last == Some(down[0]) {
        Marking::Held
    } else {
        match name_on_bit(e, down[0]) {
            None => Marking::Unnamed(down[0]),
            Some(n) => Marking::Pressed(down[0], n),
        }
    }
}

/// What is said of a button that was pressed though it has no LED slot.
pub open spec fn doubt_text(name: Seq<char>) -> Seq<char> {
    "  ? `"@ + name + DOUBT_TEXT@
}

/// Behind the name of a button that was pressed though it has no LED slot.
pub const DOUBT_TEXT: &'static str =
    "` has no LED slot yet, so this may be a mis-press (a touch sensor, say). Recording anyway; undo with `mk3-gui`.";

/// What is said of a report.
pub open spec fn marking_notes(e: Seq<(String, Control)>, m: Marking) -> Seq<NoteView> {
    match m {
        Marking::Unnamed(b) => seq![
            complained("  ! bit "@ + dec(b as nat) + " has no name yet"@),
        ],
        Marking::Pressed(_, n) => match lookup(e, n) {
            Some(c) if c.led is Some => Seq::empty(),
            _ => seq![complained(doubt_text(n))],
        },
        _ => Seq::empty(),
    }
}

/// A session of marking colour LEDs.
pub struct Marker {
    /// The palette index that marked LEDs get.
    pub palette: u8,
    /// The bit that was acted on last, while it is held.
    pub last: Option<usize>,
    /// The buttons that were marked, each once, in order.
    pub marked: Vec<String>,
}

fn is_among(v: &Vec<String>, name: &str) -> (r: bool)
    ensures
        r == views(v@).contains(name@),
{
    let ghost all = views(v@);
    let mut i: usize = 0;
    while i < v.len()
        invariant
            i <= v@.len(),
            all == views(v@),
            forall|k: int| 0 <= k < i ==> #[trigger] all[k] != name@,
        decreases v@.len() - i,
    {
        assert(all[i as int] == v@[i as int]@);
        if same(v[i].as_str(), name) {
            return true;
        }
        i += 1;
    }
    false
}

impl Marker {
    pub fn new(palette: u8) -> (r: Self)
        ensures
            r.palette == palette,
            r.last is None,
            r.marked@.len() == 0,
    {
        Marker { palette, last: None, marked: Vec::new() }
    }

    /// Acts on a report: marks the button that was pressed. Returns its name, which has to be saved.
    ///
    /// Knowing a button is a colour LED before knowing which slot drives it is fine: the slot fills
    /// in later and the colour is already right. But a button with no slot cannot be what was
    /// glowing, so that is said: the encoder's touch sensor fires as you reach for the wheel and is
    /// the usual mis-press.
    pub fn on_report(
        &mut self,
        profile: &mut Profile,
        s: &ControlState,
        out: &mut Vec<Note>,
    ) -> (r: Option<String>)
        ensures
            final(self).palette == old(self).palette,
            final(profile).device == old(profile).device,
            final(profile).report == old(profile).report,
            final(profile).layout == old(profile).layout,
            old(profile).control.wf() ==> final(profile).control.wf(),
            note_views(final(out)@) == note_views(old(out)@) + marking_notes(
                old(profile).controls(),
                marking_of(old(profile).controls(), live(*s, Seq::empty()), old(self).last),
            ),
            match marking_of(old(profile).controls(), live(*s, Seq::empty()), old(self).last) {
                Marking::Released => r is None && final(self).last is None && *final(profile)
                    == *old(profile) && final(self).marked@ == old(self).marked@,
                Marking::Held => r is None && final(self).last == old(self).last && *final(profile)
                    == *old(profile) && final(self).marked@ == old(self).marked@,
                Marking::Unnamed(b) => r is None && final(self).last == Some(b) && *final(profile)
                    == *old(profile) && final(self).marked@ == old(self).marked@,
                Marking::Pressed(b, n) => {
                    &&& maybe_view(r) == Some(n)
                    &&& final(self).last == Some(b)
                    &&& final(profile).controls() == with_colour(
                        old(profile).controls(),
                        n,
                        old(self).palette,
                    )
                    &&& views(final(self).marked@) == (if views(old(self).marked@).contains(n) {
                        views(old(self).marked@)
                    } else {
                        views(old(self).marked@).push(n)
                    })
                },
            },
    {
        let ghost before = note_views(out@);
        assert(before =~= before + Seq::<NoteView>::empty());
        let none: Vec<usize> = Vec::new();
        assert(none@ =~= Seq::<usize>::empty());
        let down = live_bits(s, &none);
        if down.len() == 0 {
            self.last = None;
            return None;
        }
        let bit: usize = down[0];
        if let Some(l) = self.last {
            if l == bit {
                return None;
            }
        }
        self.last = Some(bit);
        let named: Option<String> = match profile.button_at_bit(bit) {
            Some((n, _)) => Some(n.clone()),
            None => None,
        };
        match named {
            None => {
                let mut t = "  ! bit ".to_owned();
                push_dec(&mut t, bit as u64);
                t.append(" has no name yet");
                push_note(out, complain(t));
                assert(note_views(out@) =~= before + seq![complained(t@)]);
                None
            },
            Some(name) => {
                let has_slot = match profile.get(name.as_str()) {
                    Some(c) => c.led.is_some(),
                    None => false,
                };
                if !has_slot {
                    let mut t = "  ? `".to_owned();
                    t.append(name.as_str());
                    t.append(DOUBT_TEXT);
                    push_note(out, complain(t));
                    assert(note_views(out@) =~= before + seq![complained(t@)]);
                }
                let palette: u8 = self.palette;
                if let Some(c) = profile.control.get_mut(name.as_str()) {
                    c.led_colour = Some(palette);
                }
                if !is_among(&self.marked, name.as_str()) {
                    let ghost prior = self.marked@;
                    self.marked.push(name.clone());
                    assert(views(self.marked@) =~= views(prior).push(name@));
                }
                Some(name)
            },
        }
    }

    /// What is said at the end.
    pub fn summary(&self) -> (r: String)
        ensures
            r@ == summary_of(views(self.marked@)),
    {
        assert(views(self.marked@).len() == self.marked@.len());
        if self.marked.len() == 0 {
            return "\nNothing marked this run.".to_owned();
        }
        let mut s = "\nMarked ".to_owned();
        push_dec(&mut s, self.marked.len() as u64);
        s.append(" colour LED(s): ");
        push_joined(&mut s, &self.marked, " ");
        s
    }
}

/// What is said at the end.
pub open spec fn summary_of(marked: Seq<Seq<char>>) -> Seq<char> {
    if marked.len() == 0 {
        "\nNothing marked this run."@
    } else {
        "\nMarked "@ + dec(marked.len()) + " colour LED(s): "@ + joined(
            marked,
            " "@,
            marked.len() as int,
        )
    }
}

// What marking promises.

/// The palette that is asked for is the number behind the option, and the usual one where none is
/// asked for or it is no number.
pub proof fn law_the_palette_is_what_is_asked_for(n: nat, a: Seq<char>, rest: Seq<Seq<char>>)
    ensures
        n <= 255 ==> palette_of(seq!["--palette="@ + dec(n)] + rest) == n,
        n > 255 ==> palette_of(seq!["--palette="@ + dec(n)] + rest) == 17,
        !has_prefix(a, "--palette="@) ==> palette_of(seq![a] + rest) == palette_of(rest),
        palette_of(Seq::empty()) == 17,
{
    crate::text::law_decimal_reads_back(n, 255);
    crate::text::law_prefixes_and_pieces(Seq::empty(), "--palette="@, dec(n));
    assert((seq!["--palette="@ + dec(n)] + rest)[0] == "--palette="@ + dec(n));
    lemma_palette_shift(a, rest, 0);
}

proof fn lemma_palette_shift(a: Seq<char>, rest: Seq<Seq<char>>, i: int)
    requires
        0 <= i,
    ensures
        palette_arg(seq![a] + rest, i + 1) == palette_arg(rest, i),
    decreases rest.len() - i,
{
    if i < rest.len() {
        assert((seq![a] + rest)[i + 1] == rest[i]);
        lemma_palette_shift(a, rest, i + 1);
    }
}

/// Marking a button sets its colour and nothing else of it, and no other control.
pub proof fn law_marking_sets_one_colour(
    e: Seq<(String, Control)>,
    name: Seq<char>,
    palette: u8,
    i: int,
)
    requires
        0 <= i < e.len(),
    ensures
        with_colour(e, name, palette).len() == e.len(),
        with_colour(e, name, palette)[i].0 == e[i].0,
        e[i].0@ != name ==> with_colour(e, name, palette)[i] == e[i],
        e[i].0@ == name && (forall|k: int| 0 <= k < i ==> (#[trigger] e[k]).0@ != name)
            ==> with_colour(e, name, palette)[i].1 == (Control {
            led_colour: Some(palette),
            ..e[i].1
        }),
{
    crate::namemap::lemma_position(e, name);
    if e[i].0@ == name && (forall|k: int| 0 <= k < i ==> (#[trigger] e[k]).0@ != name) {
        crate::namemap::lemma_position_is(e, name, i);
    }
}

/// A press counts once: while the same button stays down nothing more comes of it, and once it was
/// let go it counts again.
pub proof fn law_a_press_counts_once(e: Seq<(String, Control)>, down: Seq<usize>, bit: usize)
    requires
        down.len() > 0,
        down[0] == bit,
    ensures
        marking_of(e, down, Some(bit)) is Held,
        name_on_bit(e, bit) matches Some(n) ==> marking_of(e, down, None) == Marking::Pressed(bit, n),
        name_on_bit(e, bit) is None ==> marking_of(e, down, None) == Marking::Unnamed(bit),
        marking_of(e, Seq::empty(), Some(bit)) is Released,
{
}

} // verus!
