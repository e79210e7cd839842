//! What messages say.
//!
//! Whatever else a message says, it names what it is about: the setting, the control, the preset or
//! the number that it was given.
use crate::config::{action_message, ActionFault, Config, ConfigFault, Field, Section};
use crate::daemon::{preset_line_of, source_text, test_line_of};
use crate::ipc::PresetEntry;
use crate::hid::{short_way, ControlState, PadHit, KNOBS};
use crate::learn::buttons::{
    bit_meant, bit_text, command_notes, free_to, list_text, name_on_bit, naming_notes, record_notes,
    row_text, rows_to, saved_text, taken_to, unmapped_text, Command, Naming, Recorded,
};
use crate::learn::colours::{doubt_text, marking_notes, Marking};
use crate::learn::pads::{order_text, which_of, Search};
use crate::learn::probe::{cell_text, display_text, ramp_text, words_text};
use crate::learn::read_usize;
use crate::learn::walk::{
    bit_taken, empty_range_text, led_named, lit_text, lit_to, owner_of, slot_text, unlit_text,
    unlit_to, walk_notes, WalkCommand,
};
use crate::learn::watch::{
    analog_lines, baseline_text, dump_lines, encoder_lines, hit_lines, hit_text, other_text, signed,
    values_to,
};
use crate::leds::Ramp;
use crate::namemap::lookup;
use crate::panel::{current_of, done_text_of, preset_label_of, tip_of, wiring_of, Deed};
use crate::preset::{Entry, Origin, PresetFault};
use crate::profile::{Control, Profile, ProfileFault};
use crate::text::{
    bytes_to, dec, flush_right, has_prefix, has_suffix, hex, joined, law_prefixes_and_pieces,
    number_list, occurs,
};
use crate::ui::title_of;
use vstd::prelude::*;

verus! {

proof fn lemma_front(s: Seq<char>, p: Seq<char>, b: Seq<char>)
    requires
        s =~= p + b,
    ensures
        has_prefix(s, p),
        occurs(s, p),
{
    law_prefixes_and_pieces(Seq::empty(), p, b);
    assert(Seq::<char>::empty() + p + b =~= s);
}

proof fn lemma_inside(s: Seq<char>, a: Seq<char>, p: Seq<char>, b: Seq<char>)
    requires
        s =~= a + p + b,
    ensures
        occurs(s, p),
{
    law_prefixes_and_pieces(a, p, b);
}

proof fn lemma_end(s: Seq<char>, a: Seq<char>, p: Seq<char>)
    requires
        s =~= a + p,
    ensures
        has_suffix(s, p),
        occurs(s, p),
{
    law_prefixes_and_pieces(a, p, Seq::empty());
    assert(a + p + Seq::<char>::empty() =~= s);
}

/// A fault with a number names the number and the setting that it was given for.
pub proof fn law_settings_are_named(s: Section, c: u8, n: nat, a: u16, b: u16)
    ensures
        has_prefix(ConfigFault::Channel(s, c).text(), s.name()),
        occurs(ConfigFault::Channel(s, c).text(), dec(c as nat)),
        has_suffix(ConfigFault::NotesLen(n).text(), dec(n)),
        has_prefix(ConfigFault::NotesLen(n).text(), "pads.notes"@),
        occurs(ConfigFault::NoteRange(c).text(), dec(c as nat)),
        has_suffix(ConfigFault::KnobCcsLen(n).text(), dec(n)),
        has_prefix(ConfigFault::KnobCcsLen(n).text(), "knobs.ccs"@),
        occurs(ConfigFault::Aftertouch(a, b).text(), dec(a as nat)),
        occurs(ConfigFault::Aftertouch(a, b).text(), dec(b as nat)),
{
    let t = ConfigFault::Channel(s, c).text();
    lemma_front(t, s.name(), ": channel "@ + dec(c as nat) + " outside 1..16"@);
    lemma_inside(t, s.name() + ": channel "@, dec(c as nat), " outside 1..16"@);
    lemma_end(ConfigFault::NotesLen(n).text(), "pads.notes needs 16 entries, found "@, dec(n));
    lemma_end(ConfigFault::KnobCcsLen(n).text(), "knobs.ccs needs 8 entries, found "@, dec(n));
    reveal_strlit("pads.notes");
    reveal_strlit("pads.notes needs 16 entries, found ");
    reveal_strlit("knobs.ccs");
    reveal_strlit("knobs.ccs needs 8 entries, found ");
    let (x, y) = ("pads.notes needs 16 entries, found "@, "knobs.ccs needs 8 entries, found "@);
    assert(x =~= "pads.notes"@ + x.skip(10));
    assert(y =~= "knobs.ccs"@ + y.skip(9));
    lemma_front(ConfigFault::NotesLen(n).text(), "pads.notes"@, x.skip(10) + dec(n));
    lemma_front(ConfigFault::KnobCcsLen(n).text(), "knobs.ccs"@, y.skip(9) + dec(n));
    lemma_inside(
        ConfigFault::NoteRange(c).text(),
        "pads.notes contains "@,
        dec(c as nat),
        ", outside 0..127"@,
    );
    lemma_two_numbers(a as nat, b as nat, a, b);
}

proof fn lemma_two_numbers(m: nat, n: nat, a: u16, b: u16)
    requires
        m == a,
        n == b,
    ensures
        occurs(ConfigFault::Aftertouch(a, b).text(), dec(m)),
        occurs(ConfigFault::Aftertouch(a, b).text(), dec(n)),
{
    let (x, y) = ("pads.aftertouch_max ("@, ") must exceed pads.aftertouch_floor ("@);
    let t = ConfigFault::Aftertouch(a, b).text();
    lemma_inside(t, x, dec(m), y + dec(n) + ")"@);
    lemma_inside(t, x + dec(m) + y, dec(n), ")"@);
}

/// A fault with a binding names the binding, and the names that could have been meant. One with an
/// action gives the action's text and its fault too.
pub proof fn law_bindings_are_named(
    n: Seq<char>,
    t: Seq<char>,
    f: ActionFault,
    v: Seq<Seq<char>>,
)
    ensures
        has_suffix(ConfigFault::BadAction(n, t, f).text(), n),
        occurs(ConfigFault::NoControl(n).text(), n),
        occurs(ConfigFault::DidYouMean(n, v).text(), n),
        occurs(ConfigFault::DidYouMean(n, v).text(), joined(v, ", "@, v.len() as int)),
        has_prefix(ConfigFault::BadAction(n, t, f).details(), ConfigFault::BadAction(n, t, f).text()),
        has_suffix(ConfigFault::BadAction(n, t, f).details(), action_message(t, f)),
{
    let b = "buttons."@;
    let all = joined(v, ", "@, v.len() as int);
    lemma_end(ConfigFault::BadAction(n, t, f).text(), b, n);
    lemma_inside(
        ConfigFault::NoControl(n).text(),
        b,
        n,
        ": no control called that on this device"@,
    );
    let mid = ": no control called that; did you mean "@;
    lemma_inside(ConfigFault::DidYouMean(n, v).text(), b, n, mid + all + "?"@);
    lemma_inside(ConfigFault::DidYouMean(n, v).text(), b + n + mid, all, "?"@);
    let d = ConfigFault::BadAction(n, t, f).details();
    let x = ConfigFault::BadAction(n, t, f).text();
    lemma_front(d, x, ": "@ + action_message(t, f));
    lemma_end(d, x + ": "@, action_message(t, f));
}

/// What is said of an action gives its text, and names the field or the number that is wrong.
pub proof fn law_actions_are_quoted(t: Seq<char>, f: ActionFault)
    ensures
        occurs(action_message(t, f), t),
        f matches ActionFault::Missing(x) ==> has_suffix(action_message(t, f), x.name()),
        f matches ActionFault::Bad(x) ==> has_suffix(action_message(t, f), x.name()),
        f matches ActionFault::Channel(c) ==> occurs(action_message(t, f), dec(c as nat)),
        f matches ActionFault::Outside(x, v) ==> occurs(action_message(t, f), x.name()) && occurs(
            action_message(t, f),
            dec(v as nat),
        ),
{
    let q = "`"@ + t + "`: "@;
    let m = action_message(t, f);
    match f {
        ActionFault::Missing(x) => {
            lemma_inside(m, "`"@, t, "`: "@ + "missing "@ + x.name());
            lemma_end(m, q + "missing "@, x.name());
        },
        ActionFault::Bad(x) => {
            lemma_inside(m, "`"@, t, "`: "@ + "bad "@ + x.name());
            lemma_end(m, q + "bad "@, x.name());
        },
        ActionFault::Channel(c) => {
            let d = dec(c as nat);
            lemma_inside(m, "`"@, t, "`: "@ + "channel "@ + d + " outside 1..16"@);
            lemma_inside(m, q + "channel "@, d, " outside 1..16"@);
        },
        ActionFault::Outside(x, v) => {
            let d = dec(v as nat);
            lemma_inside(m, "`"@, t, "`: "@ + x.name() + " "@ + d + " outside 0..127"@);
            lemma_inside(m, q, x.name(), " "@ + d + " outside 0..127"@);
            lemma_inside(m, q + x.name() + " "@, d, " outside 0..127"@);
        },
        ActionFault::Unknown => {
            let w = crate::config::first_word(t);
            lemma_inside(m, "`"@, t, "`: "@ + "unknown action `"@ + w + "`"@);
        },
    }
}

/// The fields of an action are told apart by their names.
pub proof fn law_fields_have_their_own_names(f: Field, g: Field)
    ensures
        f.name() == g.name() ==> f == g,
{
    reveal_strlit("channel");
    reveal_strlit("note");
    reveal_strlit("cc");
    reveal_strlit("value");
    reveal_strlit("program");
    assert("channel"@.len() == 7 && "program"@.len() == 7 && "channel"@[0] != "program"@[0]);
    assert("note"@.len() == 4 && "cc"@.len() == 2 && "value"@.len() == 5);
}

/// A fault with a control names the control, both controls where two clash, and the bit or the slot.
pub proof fn law_controls_are_named(n: Seq<char>, o: Seq<char>, b: nat, m: nat)
    ensures
        occurs(ProfileFault::NoBit(n).text(), n),
        occurs(ProfileFault::BitRange(n, b, m).text(), n),
        occurs(ProfileFault::BitRange(n, b, m).text(), dec(b)),
        has_suffix(ProfileFault::BitRange(n, b, m).text(), dec(m)),
        occurs(ProfileFault::BitClash(n, o, b).text(), n),
        occurs(ProfileFault::BitClash(n, o, b).text(), o),
        has_suffix(ProfileFault::BitClash(n, o, b).text(), dec(b)),
{
    let c = "control."@;
    lemma_inside(ProfileFault::NoBit(n).text(), c, n, " is a button but has no bit"@);
    let t = ProfileFault::BitRange(n, b, m).text();
    let (x, y) = (": bit "@, " outside 0.."@);
    lemma_inside(t, c, n, x + dec(b) + y + dec(m));
    lemma_inside(t, c + n + x, dec(b), y + dec(m));
    lemma_end(t, c + n + x + dec(b) + y, dec(m));
    let u = ProfileFault::BitClash(n, o, b).text();
    let (p, q) = (" and control."@, " both claim bit "@);
    lemma_inside(u, c, n, p + o + q + dec(b));
    lemma_inside(u, c + n + p, o, q + dec(b));
    lemma_end(u, c + n + p + o + q, dec(b));
}

/// A fault with a light names its control and its slot, and both controls where two clash.
pub proof fn law_lights_are_named(n: Seq<char>, o: Seq<char>, l: nat, m: nat)
    ensures
        occurs(ProfileFault::LedRange(n, l, m).text(), n),
        occurs(ProfileFault::LedRange(n, l, m).text(), dec(l)),
        has_suffix(ProfileFault::LedRange(n, l, m).text(), dec(m)),
        occurs(ProfileFault::LedClash(n, o, l).text(), n),
        occurs(ProfileFault::LedClash(n, o, l).text(), o),
        has_suffix(ProfileFault::LedClash(n, o, l).text(), dec(l)),
        occurs(ProfileFault::LedInBlock(n, l).text(), n),
        occurs(ProfileFault::LedInBlock(n, l).text(), dec(l)),
{
    let c = "control."@;
    let t = ProfileFault::LedRange(n, l, m).text();
    let (x, y) = (": led "@, " outside 0.."@);
    lemma_inside(t, c, n, x + dec(l) + y + dec(m));
    lemma_inside(t, c + n + x, dec(l), y + dec(m));
    lemma_end(t, c + n + x + dec(l) + y, dec(m));
    let u = ProfileFault::LedClash(n, o, l).text();
    let (p, q) = (" and control."@, " both claim LED slot "@);
    lemma_inside(u, c, n, p + o + q + dec(l));
    lemma_inside(u, c + n + p, o, q + dec(l));
    lemma_end(u, c + n + p + o + q, dec(l));
    let v = ProfileFault::LedInBlock(n, l).text();
    let (r, s) = (": LED slot "@, " is inside the pad or touch strip block"@);
    lemma_inside(v, c, n, r + dec(l) + s);
    lemma_inside(v, c + n + r, dec(l), s);
}

/// What is said of a preset that cannot be used names it, and what there is where it is not there.
pub proof fn law_presets_are_named(n: Seq<char>, v: Seq<Seq<char>>)
    ensures
        occurs(PresetFault::Missing(n, v).text(), n),
        has_suffix(PresetFault::Missing(n, v).text(), joined(v, ", "@, v.len() as int)),
        occurs(PresetFault::BuiltIn(n).text(), n),
        occurs(PresetFault::Unknown(n).text(), n),
        current_of(Some(n)) == n,
{
    let all = joined(v, ", "@, v.len() as int);
    let (x, y) = ("no preset called `"@, "`. Available: "@);
    lemma_inside(PresetFault::Missing(n, v).text(), x, n, y + all);
    lemma_end(PresetFault::Missing(n, v).text(), x + n + y, all);
    lemma_inside(PresetFault::BuiltIn(n).text(), "`"@, n, "` is built in and cannot be deleted"@);
    lemma_inside(PresetFault::Unknown(n).text(), x, n, "`"@);
}

proof fn lemma_deed(t: Seq<char>, verb: Seq<char>, n: Seq<char>, end: Seq<char>)
    requires
        t =~= verb + seq![' ', '`'] + n + end,
    ensures
        has_prefix(t, verb),
        occurs(t, n),
{
    lemma_front(t, verb, seq![' ', '`'] + n + end);
    lemma_inside(t, verb + seq![' ', '`'], n, end);
}

/// What is said of a preset that something was done with says what, and names it.
pub proof fn law_deeds_are_told(n: Seq<char>, deed: Deed)
    ensures
        occurs(done_text_of(deed, n), n),
        deed is Loaded ==> has_prefix(done_text_of(deed, n), "loaded"@),
        deed is Saved ==> has_prefix(done_text_of(deed, n), "saved"@),
        deed is Deleted ==> has_prefix(done_text_of(deed, n), "deleted"@),
        deed is Imported ==> has_prefix(done_text_of(deed, n), "imported"@),
{
    let t = done_text_of(deed, n);
    match deed {
        Deed::Loaded => {
            reveal_strlit("loaded");
            reveal_strlit("loaded `");
            assert("loaded `"@ =~= "loaded"@ + seq![' ', '`']);
            lemma_deed(t, "loaded"@, n, "` (previous config kept as config.toml.prev)"@);
        },
        Deed::Saved => {
            reveal_strlit("saved");
            reveal_strlit("saved `");
            assert("saved `"@ =~= "saved"@ + seq![' ', '`']);
            lemma_deed(t, "saved"@, n, "`"@);
        },
        Deed::Deleted => {
            reveal_strlit("deleted");
            reveal_strlit("deleted `");
            assert("deleted `"@ =~= "deleted"@ + seq![' ', '`']);
            lemma_deed(t, "deleted"@, n, "`"@);
        },
        Deed::Imported => {
            reveal_strlit("imported");
            reveal_strlit("imported `");
            assert("imported `"@ =~= "imported"@ + seq![' ', '`']);
            lemma_deed(t, "imported"@, n, "`"@);
        },
    }
}

/// The line of a preset has a star where it is the active one and a blank where it is not, names it,
/// says where it is from, and ends in what it is for.
pub proof fn law_a_preset_line_says_what_it_is(e: Entry, active: Option<Seq<char>>)
    ensures
        preset_line_of(e, active).len() > 0,
        preset_line_of(e, active)[0] == '*' <==> active == Some(e.name@),
        preset_line_of(e, active)[0] == ' ' <==> active != Some(e.name@),
        occurs(preset_line_of(e, active), e.name@),
        occurs(preset_line_of(e, active), source_text(e.origin, e.shadows_builtin)),
        has_suffix(preset_line_of(e, active), e.description@),
{
    reveal_strlit("*");
    reveal_strlit(" ");
    let star = if active == Some(e.name@) {
        "*"@
    } else {
        " "@
    };
    let src = source_text(e.origin, e.shadows_builtin);
    let (a, b) = (crate::text::blanks(12 - e.name@.len()), crate::text::blanks(24 - src.len()));
    lemma_columns(star, " "@, e.name@, a, src, b, e.description@);
    let s = star + " "@ + (e.name@ + a) + " "@ + (src + b) + " "@ + e.description@;
    assert(preset_line_of(e, active) == s);
}

proof fn lemma_columns(
    star: Seq<char>,
    gap: Seq<char>,
    name: Seq<char>,
    a: Seq<char>,
    src: Seq<char>,
    b: Seq<char>,
    end: Seq<char>,
)
    requires
        star.len() == 1,
    ensures
        ({
            let s = star + gap + (name + a) + gap + (src + b) + gap + end;
            &&& s.len() > 0
            &&& s[0] == star[0]
            &&& occurs(s, name)
            &&& occurs(s, src)
            &&& has_suffix(s, end)
        }),
{
    let s = star + gap + (name + a) + gap + (src + b) + gap + end;
    lemma_inside(s, star + gap, name, a + gap + src + b + gap + end);
    lemma_inside(s, star + gap + name + a + gap, src, b + gap + end);
    lemma_end(s, star + gap + (name + a) + gap + (src + b) + gap, end);
}

/// Where a preset is from is told apart in a list and in the preset bar: built in, the user's own,
/// or the user's own over a built-in one.
pub proof fn law_origins_are_told_apart(p: PresetEntry, shadows: bool)
    ensures
        source_text(Origin::Builtin, shadows) != source_text(Origin::User, false),
        source_text(Origin::Builtin, shadows) != source_text(Origin::User, true),
        source_text(Origin::User, false) != source_text(Origin::User, true),
        has_prefix(preset_label_of(p), p.name@),
        p.builtin ==> has_suffix(preset_label_of(p), "built-in"@),
        !p.builtin && !p.shadows_builtin ==> has_suffix(preset_label_of(p), "yours"@),
        !p.builtin && p.shadows_builtin ==> has_suffix(preset_label_of(p), "(shadows built-in)"@),
{
    reveal_strlit("(built-in)");
    reveal_strlit("(yours, shadows built-in)");
    reveal_strlit("(yours)");
    assert("(built-in)"@.len() == 10 && "(yours)"@.len() == 7 && "(yours, shadows built-in)"@.len()
        == 25);
    reveal_strlit("  \u{b7}  built-in");
    reveal_strlit("  \u{b7}  yours (shadows built-in)");
    reveal_strlit("  \u{b7}  yours");
    reveal_strlit("built-in");
    reveal_strlit("yours");
    reveal_strlit("(shadows built-in)");
    let (a, b, c) = (
        "  \u{b7}  built-in"@,
        "  \u{b7}  yours (shadows built-in)"@,
        "  \u{b7}  yours"@,
    );
    let tail = if p.builtin {
        a
    } else if p.shadows_builtin {
        b
    } else {
        c
    };
    let s = preset_label_of(p);
    lemma_front(s, p.name@, tail);
    if p.builtin {
        assert(a =~= a.take(5) + "built-in"@);
        lemma_end(s, p.name@ + a.take(5), "built-in"@);
    } else if p.shadows_builtin {
        assert(b =~= b.take(11) + "(shadows built-in)"@);
        lemma_end(s, p.name@ + b.take(11), "(shadows built-in)"@);
    } else {
        assert(c =~= c.take(5) + "yours"@);
        lemma_end(s, p.name@ + c.take(5), "yours"@);
    }
}

/// What is said of a control names it first and gives its bit and its light, and says so where
/// nothing is bound to it.
pub proof fn law_a_control_is_described(name: Seq<char>, c: Control, bound: bool)
    ensures
        has_prefix(tip_of(name, c, bound), name),
        c.bit matches Some(b) ==> occurs(tip_of(name, c, bound), dec(b as nat)),
        c.led matches Some(l) ==> occurs(tip_of(name, c, bound), dec(l as nat)),
        tip_of(name, c, true).len() < tip_of(name, c, false).len(),
        has_prefix(tip_of(name, c, false), tip_of(name, c, true)),
        c.bit matches Some(b) ==> occurs(wiring_of(c), dec(b as nat)),
        c.led matches Some(l) ==> occurs(wiring_of(c), dec(l as nat)),
        c.led_colour matches Some(p) ==> has_suffix(wiring_of(c), dec(p as nat)),
{
    let t = tip_of(name, c, bound);
    let bits = match c.bit {
        Some(b) => "\nbit "@ + dec(b as nat),
        None => Seq::empty(),
    };
    let leds = match c.led {
        Some(l) => "  LED slot "@ + dec(l as nat),
        None => "  no LED"@,
    };
    let hint = "\n\nnot bound -- click to give it a MIDI message"@;
    let end = if bound {
        Seq::empty()
    } else {
        hint
    };
    assert(t =~= name + bits + leds + end);
    lemma_front(t, name, bits + leds + end);
    if let Some(b) = c.bit {
        lemma_inside(t, name + "\nbit "@, dec(b as nat), leds + end);
    }
    if let Some(l) = c.led {
        lemma_inside(t, name + bits + "  LED slot "@, dec(l as nat), end);
    }
    reveal_strlit("\n\nnot bound -- click to give it a MIDI message");
    assert(tip_of(name, c, true) =~= name + bits + leds);
    lemma_front(tip_of(name, c, false), tip_of(name, c, true), hint);
    lemma_wiring(c);
}

proof fn lemma_wiring(c: Control)
    ensures
        c.bit matches Some(b) ==> occurs(wiring_of(c), dec(b as nat)),
        c.led matches Some(l) ==> occurs(wiring_of(c), dec(l as nat)),
        c.led_colour matches Some(p) ==> has_suffix(wiring_of(c), dec(p as nat)),
{
    let w = wiring_of(c);
    let bit = match c.bit {
        Some(b) => dec(b as nat),
        None => "-"@,
    };
    let led = match c.led {
        Some(l) => "LED slot "@ + dec(l as nat),
        None => "no LED"@,
    };
    let colour = match c.led_colour {
        Some(p) => ", colour palette "@ + dec(p as nat),
        None => Seq::empty(),
    };
    let dot = "  \u{b7}  "@;
    assert(w =~= "bit "@ + bit + dot + led + colour);
    lemma_inside(w, "bit "@, bit, dot + led + colour);
    if let Some(l) = c.led {
        lemma_inside(w, "bit "@ + bit + dot + "LED slot "@, dec(l as nat), colour);
    }
    if let Some(p) = c.led_colour {
        lemma_end(w, "bit "@ + bit + dot + led + ", colour palette "@, dec(p as nat));
    }
}

/// The line of the test pattern gives the channel as it is counted from 1, and the note and the
/// control that are sent on it.
pub proof fn law_the_test_line_says_what_is_sent(ch: u8)
    requires
        ch < 16,
    ensures
        occurs(test_line_of(ch), dec((ch + 1) as nat)),
        occurs(test_line_of(ch), "note "@ + dec((60 + ch) as nat)),
        occurs(test_line_of(ch), "cc "@ + dec((20 + ch) as nat)),
{
    let (c, n, k) = (dec((ch + 1) as nat), dec((60 + ch) as nat), dec((20 + ch) as nat));
    let t = test_line_of(ch);
    let b = crate::text::blanks(3 - c.len());
    let gap = crate::text::left_aligned(Seq::empty(), 12);
    let end = " = 127 then 0"@;
    reveal_strlit("  note ");
    reveal_strlit("note ");
    reveal_strlit(" cc ");
    reveal_strlit("cc ");
    assert("  note "@ =~= seq![' ', ' '] + "note "@);
    assert(" cc "@ =~= seq![' '] + "cc "@);
    let rest = " on/off"@ + gap + " cc "@ + k + end;
    lemma_inside(t, "  "@ + b, c, "  note "@ + n + rest);
    lemma_inside(t, "  "@ + b + c + seq![' ', ' '], "note "@ + n, rest);
    lemma_inside(
        t,
        "  "@ + b + c + "  note "@ + n + " on/off"@ + gap + seq![' '],
        "cc "@ + k,
        end,
    );
}

/// What is said when a button is saved names it, its bit and its light; and a bit is shown with the
/// name that it has.
pub proof fn law_saved_buttons_are_named(
    name: Seq<char>,
    bit: usize,
    led: Option<usize>,
    e: Seq<(String, Control)>,
    slot: usize,
)
    ensures
        occurs(saved_text(name, bit, led), name),
        occurs(saved_text(name, bit, led), dec(bit as nat)),
        led matches Some(l) ==> occurs(saved_text(name, bit, led), dec(l as nat)),
        has_prefix(bit_text(e, bit), dec(bit as nat)),
        name_on_bit(e, bit) matches Some(n) ==> occurs(bit_text(e, bit), n),
        name_on_bit(e, bit) is None ==> occurs(bit_text(e, bit), "new"@),
        occurs(slot_text(slot, Some(name)), dec(slot as nat)),
        occurs(slot_text(slot, Some(name)), name),
{
    let t = saved_text(name, bit, led);
    let d = dec(bit as nat);
    let end = "  [saved]"@;
    let leds = match led {
        Some(v) => ", led "@ + dec(v as nat),
        None => Seq::empty(),
    };
    assert(t =~= "  ok: "@ + name + " = bit "@ + d + leds + end);
    lemma_inside(t, "  ok: "@, name, " = bit "@ + d + leds + end);
    lemma_inside(t, "  ok: "@ + name + " = bit "@, d, leds + end);
    if let Some(l) = led {
        lemma_inside(t, "  ok: "@ + name + " = bit "@ + d + ", led "@, dec(l as nat), end);
    }
    let w = match name_on_bit(e, bit) {
        Some(n) => n,
        None => "new"@,
    };
    lemma_front(bit_text(e, bit), d, " ("@ + w + ")"@);
    lemma_inside(bit_text(e, bit), d + " ("@, w, ")"@);
    let u = slot_text(slot, Some(name));
    let x = dec(slot as nat);
    let b = crate::text::blanks(3 - x.len());
    lemma_inside(u, "slot "@ + b, x, " is lit"@ + "  [currently "@ + name + "]"@);
    lemma_inside(u, "slot "@ + b + x + " is lit"@ + "  [currently "@, name, "]"@);
}

/// What is said of a name that was given: a refusal is a complaint, which gives the number that is
/// wrong, and a renaming gives both names.
pub proof fn law_what_becomes_of_a_name_is_said(
    name: Seq<char>,
    n: usize,
    before: String,
    l: Option<usize>,
)
    ensures
        record_notes(name, Recorded::BadName).len() == 1 && record_notes(
            name,
            Recorded::BadName,
        )[0].complaint,
        record_notes(name, Recorded::BadLed(n)).len() == 1 && record_notes(
            name,
            Recorded::BadLed(n),
        )[0].complaint && occurs(
            record_notes(name, Recorded::BadLed(n))[0].text,
            dec(n as nat),
        ),
        record_notes(name, Recorded::Taken(n)).len() == 1 && record_notes(
            name,
            Recorded::Taken(n),
        )[0].complaint && occurs(
            record_notes(name, Recorded::Taken(n))[0].text,
            name,
        ) && occurs(record_notes(name, Recorded::Taken(n))[0].text, dec(n as nat)),
        record_notes(name, Recorded::Done(None, l)).len() == 0,
        record_notes(name, Recorded::Done(Some(before), l)).len() == 1 && !record_notes(
            name,
            Recorded::Done(Some(before), l),
        )[0].complaint && occurs(
            record_notes(name, Recorded::Done(Some(before), l))[0].text,
            before@,
        ) && occurs(record_notes(name, Recorded::Done(Some(before), l))[0].text, name),
{
    let d = dec(n as nat);
    lemma_inside(
        record_notes(name, Recorded::BadLed(n))[0].text,
        "  ! LED slot must be 0.."@,
        d,
        "; nothing recorded"@,
    );
    let t = record_notes(name, Recorded::Taken(n))[0].text;
    let (x, y) = ("` already means bit Some("@, "); pick another name or rename that one first"@);
    lemma_inside(t, "  ! `"@, name, x + d + y);
    lemma_inside(t, "  ! `"@ + name + x, d, y);
    let u = record_notes(name, Recorded::Done(Some(before), l))[0].text;
    lemma_inside(u, "  (renamed `"@, before@, "` to `"@ + name + "`)"@);
    lemma_inside(u, "  (renamed `"@ + before@ + "` to `"@, name, "`)"@);
}

/// What is said at the name prompt names the bit, and is a complaint where the bit was not pressed.
pub proof fn law_bits_at_the_prompt_are_named(
    b: usize,
    p: Profile,
    ignored: Seq<usize>,
    down: Seq<usize>,
)
    ensures
        naming_notes(Naming::NotAmong(b), p, ignored, down).len() == 1,
        naming_notes(Naming::NotAmong(b), p, ignored, down)[0].complaint,
        occurs(naming_notes(Naming::NotAmong(b), p, ignored, down)[0].text, dec(b as nat)),
        has_suffix(naming_notes(Naming::NotAmong(b), p, ignored, down)[0].text, number_list(down)),
        naming_notes(Naming::Using(b), p, ignored, down).len() == 1,
        !naming_notes(Naming::Using(b), p, ignored, down)[0].complaint,
        occurs(naming_notes(Naming::Using(b), p, ignored, down)[0].text, dec(b as nat)),
        naming_notes(Naming::Skip, p, ignored, down).len() == 1,
{
    let d = dec(b as nat);
    let t = naming_notes(Naming::NotAmong(b), p, ignored, down)[0].text;
    lemma_inside(t, "  ! bit "@, d, " was not among "@ + number_list(down));
    lemma_end(t, "  ! bit "@ + d + " was not among "@, number_list(down));
    let u = naming_notes(Naming::Using(b), p, ignored, down)[0].text;
    lemma_inside(u, "  using bit "@, d, "; press the button again to name it"@);
}

/// What a command says of a bit names the bit; a bit that there is not is complained of.
pub proof fn law_commands_name_their_bit(n: usize, p: Profile, ignored: Seq<usize>)
    ensures
        command_notes(Command::BadBit(n), p, ignored).len() == 1,
        command_notes(Command::BadBit(n), p, ignored)[0].complaint,
        occurs(command_notes(Command::BadBit(n), p, ignored)[0].text, dec(n as nat)),
        command_notes(Command::Ignore(n), p, ignored).len() == 1,
        !command_notes(Command::Ignore(n), p, ignored)[0].complaint,
        has_suffix(command_notes(Command::Ignore(n), p, ignored)[0].text, dec(n as nat)),
        command_notes(Command::Unignore(n), p, ignored).len() == 1,
        !command_notes(Command::Unignore(n), p, ignored)[0].complaint,
        has_suffix(command_notes(Command::Unignore(n), p, ignored)[0].text, dec(n as nat)),
        ignored.len() > 0 ==> has_suffix(
            command_notes(Command::List, p, ignored).last().text,
            number_list(ignored),
        ),
{
    let d = dec(n as nat);
    let t = command_notes(Command::BadBit(n), p, ignored)[0].text;
    lemma_inside(t, "  ! bit "@, d, " is outside 0..80"@);
    lemma_end(command_notes(Command::Ignore(n), p, ignored)[0].text, "  ignoring bit "@, d);
    lemma_end(
        command_notes(Command::Unignore(n), p, ignored)[0].text,
        "  no longer ignoring bit "@,
        d,
    );
    if ignored.len() > 0 {
        lemma_end(
            command_notes(Command::List, p, ignored).last().text,
            "  ignoring bits "@,
            number_list(ignored),
        );
    }
}

/// While colours are marked, a bit without a name and a button without a light are complained of by
/// their number and their name; a lit button is not.
pub proof fn law_doubtful_presses_are_named(
    e: Seq<(String, Control)>,
    b: usize,
    n: Seq<char>,
)
    ensures
        marking_notes(e, Marking::Unnamed(b)).len() == 1,
        marking_notes(e, Marking::Unnamed(b))[0].complaint,
        occurs(marking_notes(e, Marking::Unnamed(b))[0].text, dec(b as nat)),
        lookup(e, n) is Some && lookup(e, n)->0.led is Some ==> marking_notes(
            e,
            Marking::Pressed(b, n),
        ).len() == 0,
        lookup(e, n) is None || lookup(e, n)->0.led is None ==> {
            let v = marking_notes(e, Marking::Pressed(b, n));
            v.len() == 1 && v[0].complaint && occurs(v[0].text, n)
        },
        marking_notes(e, Marking::Held).len() == 0,
        marking_notes(e, Marking::Released).len() == 0,
{
    lemma_inside(
        marking_notes(e, Marking::Unnamed(b))[0].text,
        "  ! bit "@,
        dec(b as nat),
        " has no name yet"@,
    );
    lemma_inside(doubt_text(n), "  ? `"@, n, crate::learn::colours::DOUBT_TEXT@);
}

/// A search fails where nothing lights a pad or the slots that were found are not the pads, which it
/// names; it does not fail while it goes on or where it has found them.
pub proof fn law_a_failed_search_says_where(b: usize, c: usize)
    ensures
        Search::NoPad.fails() is Some,
        Search::NotABlock(b).fails() matches Some(t) && occurs(t, dec(b as nat)) && occurs(
            t,
            dec((b + 16) as nat),
        ),
        Search::Found(b).fails() is None,
        Search::Candidate(b).fails() is None,
        Search::AnyLit.fails() is None,
        Search::Halving(b, c).fails() is None,
        Search::Confirm(b).fails() is None,
{
    let t = Search::NotABlock(b).fails()->0;
    let (d, e) = (dec(b as nat), dec((b + 16) as nat));
    let x = " are not the pad block; run `mk3-learn leds "@;
    let y = "` to step through them one at a time"@;
    lemma_inside(t, "slots "@, d, ".."@ + e + x + d + y);
    lemma_inside(t, "slots "@ + d + ".."@, e, x + d + y);
}

/// What is said of the order of the pads names the first slot, and the pad that it lights where that
/// is an odd one.
pub proof fn law_an_odd_order_is_named(base: usize, which: nat, line: Seq<char>, n: nat)
    requires
        n <= usize::MAX,
    ensures
        which == 13 ==> occurs(order_text(base, which), dec(base as nat)),
        which != 0 && which != 1 && which != 13 ==> occurs(order_text(base, which), dec(base as nat))
            && occurs(order_text(base, which), dec(which)),
        which_of(dec(n)) == n,
        read_usize(line) is None ==> which_of(line) == 0,
{
    let d = dec(base as nat);
    if which == 13 {
        lemma_inside(
            order_text(base, which),
            "  NOTE: slot "@,
            d,
            crate::learn::pads::TOP_DOWN_TEXT@,
        );
    } else if which != 0 && which != 1 {
        let end = crate::learn::pads::OTHER_ORDER_TEXT@;
        let t = order_text(base, which);
        lemma_inside(t, "  NOTE: slot "@, d, " is pad "@ + dec(which) + end);
        lemma_inside(t, "  NOTE: slot "@ + d + " is pad "@, dec(which), end);
    }
    crate::text::law_decimal_reads_back(n, usize::MAX as nat);
}

/// Slots that are none are named by both ends.
pub proof fn law_an_empty_range_is_named(start: nat, end: nat)
    ensures
        occurs(empty_range_text(start, end), dec(start)),
        has_suffix(empty_range_text(start, end), dec(end)),
{
    let m = " must be below end "@;
    lemma_inside(empty_range_text(start, end), "start "@, dec(start), m + dec(end));
    lemma_end(empty_range_text(start, end), "start "@ + dec(start) + m, dec(end));
}

/// What a display's report says gives its width before its height, then its depth, its brightness
/// and, last, its contrast.
pub proof fn law_a_display_is_described(r: Seq<u8>)
    requires
        r.len() >= 10,
    ensures
        occurs(
            display_text(r),
            dec((r[1] + 256 * r[2]) as nat) + "x"@ + dec((r[3] + 256 * r[4]) as nat),
        ),
        occurs(display_text(r), dec(r[5] as nat) + " bpp"@),
        occurs(display_text(r), "brightness "@ + dec(r[8] as nat)),
        has_suffix(display_text(r), "contrast "@ + dec(r[9] as nat)),
{
    let (w, h) = (dec((r[1] + 256 * r[2]) as nat), dec((r[3] + 256 * r[4]) as nat));
    lemma_display(w, h, dec(r[5] as nat), dec(r[8] as nat), dec(r[9] as nat), display_text(r));
}

proof fn lemma_display(
    w: Seq<char>,
    h: Seq<char>,
    d: Seq<char>,
    b: Seq<char>,
    c: Seq<char>,
    t: Seq<char>,
)
    requires
        t == "     "@ + w + "x"@ + h + ", "@ + d + " bpp, brightness "@ + b + ", contrast "@ + c,
    ensures
        occurs(t, w + "x"@ + h),
        occurs(t, d + " bpp"@),
        occurs(t, "brightness "@ + b),
        has_suffix(t, "contrast "@ + c),
{
    let (s, x, k) = ("     "@, "x"@, ", "@);
    let (p, q) = (" bpp, brightness "@, ", contrast "@);
    reveal_strlit(" bpp, brightness ");
    reveal_strlit(" bpp");
    reveal_strlit("brightness ");
    reveal_strlit(", contrast ");
    reveal_strlit("contrast ");
    assert(p =~= " bpp"@ + p.skip(4));
    assert(p =~= p.take(6) + "brightness "@);
    assert(q =~= q.take(2) + "contrast "@);
    assert(occurs(t, w + x + h)) by {
        lemma_inside(t, s, w + x + h, k + d + p + b + q + c);
    }
    assert(occurs(t, d + " bpp"@)) by {
        lemma_inside(t, s + w + x + h + k, d + " bpp"@, p.skip(4) + b + q + c);
    }
    assert(occurs(t, "brightness "@ + b)) by {
        lemma_inside(t, s + w + x + h + k + d + p.take(6), "brightness "@ + b, q + c);
    }
    assert(has_suffix(t, "contrast "@ + c)) by {
        lemma_end(t, s + w + x + h + k + d + p + b + q.take(2), "contrast "@ + c);
    }
}

/// The numbers after a report's id are listed in their order, each of them from two bytes, the low
/// one first.
pub proof fn law_words_are_listed(r: Seq<u8>, n: int)
    requires
        0 < n,
        r.len() > 2 * n,
    ensures
        has_suffix(words_text(r, n), dec((r[2 * n - 1] + 256 * r[2 * n]) as nat)),
        has_prefix(words_text(r, n), dec((r[1] + 256 * r[2]) as nat)),
        n > 1 ==> has_prefix(words_text(r, n), words_text(r, n - 1)),
    decreases n,
{
    let last = dec((r[2 * n - 1] + 256 * r[2 * n]) as nat);
    if n == 1 {
        lemma_end(words_text(r, 1), Seq::empty(), last);
        lemma_front(words_text(r, 1), last, Seq::empty());
    } else {
        let w = words_text(r, n - 1);
        let first = dec((r[1] + 256 * r[2]) as nat);
        law_words_are_listed(r, n - 1);
        lemma_end(words_text(r, n), w + ", "@, last);
        lemma_front(words_text(r, n), w, ", "@ + last);
        assert(w =~= first + w.skip(first.len() as int));
        lemma_front(words_text(r, n), first, w.skip(first.len() as int) + ", "@ + last);
    }
}

/// Numbers are listed in their order.
pub proof fn law_values_are_listed(v: Seq<u16>, n: int)
    requires
        0 < n <= v.len(),
    ensures
        has_suffix(values_to(v, n), dec(v[n - 1] as nat)),
        n > 1 ==> has_prefix(values_to(v, n), values_to(v, n - 1)),
{
    if n == 1 {
        lemma_end(values_to(v, 1), Seq::empty(), dec(v[0] as nat));
    } else {
        lemma_end(values_to(v, n), values_to(v, n - 1) + ", "@, dec(v[n - 1] as nat));
        lemma_front(values_to(v, n), values_to(v, n - 1), ", "@ + dec(v[n - 1] as nat));
    }
}

/// The first report is shown with all its buttons and knobs. A later one is dumped where dumps are
/// asked for and it has changed. A report of another kind is shown with its id.
pub proof fn law_reports_are_shown(s: ControlState, raw: bool, was: Seq<u8>, r: Seq<u8>)
    requires
        r.len() > 0,
    ensures
        occurs(baseline_text(s), bytes_to(s.buttons@, ", "@, 10)),
        occurs(baseline_text(s), values_to(s.knobs@, KNOBS as int)),
        dump_lines(raw, was, r).len() == 1 <==> raw && r != was,
        dump_lines(raw, was, r).len() == 0 <==> !raw || r == was,
        raw && r != was ==> has_suffix(
            dump_lines(raw, was, r)[0],
            bytes_to(r.skip(1), " "@, r.len() - 1),
        ),
        occurs(other_text(r), hex(r[0] as nat, 2)),
        occurs(other_text(r), bytes_to(r.skip(1), ", "@, r.len() - 1)),
{
    let (b, k) = (bytes_to(s.buttons@, ", "@, 10), values_to(s.knobs@, KNOBS as int));
    let (x, y) = ("baseline: buttons=["@, "] knobs=["@);
    lemma_inside(baseline_text(s), x, b, y + k + "]"@);
    lemma_inside(baseline_text(s), x + b + y, k, "]"@);
    if raw && r != was {
        let all = bytes_to(r.skip(1), " "@, r.len() - 1);
        lemma_end(dump_lines(raw, was, r)[0], "raw 0x01     "@, all);
    }
    let all = bytes_to(r.skip(1), ", "@, r.len() - 1);
    let h = hex(r[0] as nat, 2);
    lemma_inside(other_text(r), "report 0x"@, h, ": ["@ + all + "]"@);
    lemma_inside(other_text(r), "report 0x"@ + h + ": ["@, all, "]"@);
}

/// Every pad event has its line, in the order of the events.
pub proof fn law_every_pad_event_has_a_line(hits: Seq<PadHit>, i: int)
    requires
        0 <= i < hits.len(),
    ensures
        hit_lines(hits).len() == hits.len(),
        hit_lines(hits)[i] == hit_text(hits[i]),
{
}

/// The line of a palette entry has its number and its four colours in order, each as red, green and
/// blue.
pub proof fn law_a_ramp_is_shown(i: nat, r: Ramp, t: (u8, u8, u8))
    ensures
        occurs(ramp_text(i, r), dec(i)),
        occurs(
            ramp_text(i, r),
            cell_text(r.0@[0]) + " "@ + cell_text(r.0@[1]) + " "@ + cell_text(r.0@[2]) + " "@
                + cell_text(r.0@[3]),
        ),
        occurs(cell_text(t), flush_right(dec(t.0 as nat), 3) + ","@ + flush_right(dec(t.1 as nat), 3)),
        has_suffix(cell_text(t), flush_right(dec(t.2 as nat), 3) + ")"@),
{
    let n = dec(i);
    let b = crate::text::blanks(2 - n.len());
    let c = r.0@;
    lemma_four(
        b,
        n,
        cell_text(c[0]),
        cell_text(c[1]),
        cell_text(c[2]),
        cell_text(c[3]),
        ramp_text(i, r),
    );
    lemma_three(
        flush_right(dec(t.0 as nat), 3),
        flush_right(dec(t.1 as nat), 3),
        flush_right(dec(t.2 as nat), 3),
        cell_text(t),
    );
}

proof fn lemma_four(
    b: Seq<char>,
    n: Seq<char>,
    c0: Seq<char>,
    c1: Seq<char>,
    c2: Seq<char>,
    c3: Seq<char>,
    t: Seq<char>,
)
    requires
        t == "  "@ + (b + n) + ": "@ + c0 + " "@ + c1 + " "@ + c2 + " "@ + c3,
    ensures
        occurs(t, n),
        occurs(t, c0 + " "@ + c1 + " "@ + c2 + " "@ + c3),
{
    let all = c0 + " "@ + c1 + " "@ + c2 + " "@ + c3;
    lemma_inside(t, "  "@ + b, n, ": "@ + all);
    lemma_end(t, "  "@ + b + n + ": "@, all);
}

proof fn lemma_three(x: Seq<char>, y: Seq<char>, z: Seq<char>, t: Seq<char>)
    requires
        t == "("@ + x + ","@ + y + ","@ + z + ")"@,
    ensures
        occurs(t, x + ","@ + y),
        has_suffix(t, z + ")"@),
{
    lemma_inside(t, "("@, x + ","@ + y, ","@ + z + ")"@);
    lemma_end(t, "("@ + x + ","@ + y + ","@, z + ")"@);
}

/// What is said of a press names the bit that it is about and the name that the bit has; where more
/// than one bit is down, all of them are shown first.
pub proof fn law_a_press_is_told(e: Seq<(String, Control)>, down: Seq<usize>)
    ensures
        crate::learn::buttons::press_notes(e, down).len() == if down.len() > 1 {
            2int
        } else {
            1
        },
        occurs(crate::learn::buttons::press_notes(e, down).last().text, dec(bit_meant(e, down) as nat)),
        name_on_bit(e, bit_meant(e, down)) matches Some(n) ==> occurs(
            crate::learn::buttons::press_notes(e, down).last().text,
            n,
        ),
        name_on_bit(e, bit_meant(e, down)) is None ==> has_suffix(
            crate::learn::buttons::press_notes(e, down).last().text,
            " -- new"@,
        ),
{
    let bit = bit_meant(e, down);
    let d = dec(bit as nat);
    let b = crate::text::blanks(2 - d.len());
    let t = crate::learn::buttons::press_notes(e, down).last().text;
    match name_on_bit(e, bit) {
        Some(n) => {
            let m = " -- already mapped to `"@;
            assert(t == "bit "@ + (b + d) + (m + n + "`"@));
            lemma_mapped(b, d, m, n, t);
        },
        None => {
            assert(t == "bit "@ + (b + d) + " -- new"@);
            lemma_unmapped(b, d, " -- new"@, t);
        },
    }
}

proof fn lemma_mapped(b: Seq<char>, d: Seq<char>, m: Seq<char>, n: Seq<char>, t: Seq<char>)
    requires
        t == "bit "@ + (b + d) + (m + n + "`"@),
    ensures
        occurs(t, d),
        occurs(t, n),
{
    lemma_inside(t, "bit "@ + b, d, m + n + "`"@);
    lemma_inside(t, "bit "@ + b + d + m, n, "`"@);
}

proof fn lemma_unmapped(b: Seq<char>, d: Seq<char>, w: Seq<char>, t: Seq<char>)
    requires
        t == "bit "@ + (b + d) + w,
    ensures
        occurs(t, d),
        has_suffix(t, w),
{
    lemma_inside(t, "bit "@ + b, d, w);
    lemma_end(t, "bit "@ + (b + d), w);
}

/// What is left to map is said by its numbers: how many bits have a button, of how many, and which
/// have none.
pub proof fn law_what_is_left_to_map_is_told(p: Profile)
    ensures
        ({
            let taken = taken_to(p.controls(), p.controls().len() as int);
            let free = free_to(taken, p.layout.button_bits as int);
            free.len() > 0 ==> {
                &&& has_suffix(unmapped_text(p), number_list(free))
                &&& occurs(
                    unmapped_text(p),
                    dec(taken.len()) + " of "@ + dec(p.layout.button_bits as nat),
                )
            }
        }),
{
    let taken = taken_to(p.controls(), p.controls().len() as int);
    let free = free_to(taken, p.layout.button_bits as int);
    if free.len() > 0 {
        let x = dec(taken.len()) + " of "@ + dec(p.layout.button_bits as nat);
        let m = " bits mapped; still free: "@;
        lemma_inside(unmapped_text(p), "  "@, x, m + number_list(free));
        lemma_end(unmapped_text(p), "  "@ + x + m, number_list(free));
    }
}

/// The line of a button in the list has its bit, its light and, last, its name; and the list has a
/// line for each of its buttons, under a heading.
pub proof fn law_a_listed_button_is_shown(name: Seq<char>, c: Control, p: Profile, i: int)
    ensures
        has_suffix(row_text(name, c), name),
        c.bit matches Some(b) ==> occurs(row_text(name, c), dec(b as nat)),
        c.led matches Some(l) ==> occurs(row_text(name, c), dec(l as nat)),
        ({
            let e = p.controls();
            let rows = rows_to(e, e.len() as int);
            0 <= i < rows.len() ==> {
                &&& list_text(p).len() == 1 + rows.len()
                &&& list_text(p)[1 + i].text == row_text(e[rows[i] as int].0@, e[rows[i] as int].1)
                &&& !list_text(p)[1 + i].complaint
            }
        }),
{
    let d = dec(
        match c.bit {
            Some(b) => b as nat,
            None => 0,
        },
    );
    let l = match c.led {
        Some(l) => dec(l as nat),
        None => "-"@,
    };
    lemma_row(
        "  "@,
        crate::text::blanks(4 - d.len()),
        d,
        crate::text::blanks(4 - l.len()),
        l,
        name,
        row_text(name, c),
    );
}

proof fn lemma_row(
    gap: Seq<char>,
    a: Seq<char>,
    d: Seq<char>,
    b: Seq<char>,
    l: Seq<char>,
    name: Seq<char>,
    t: Seq<char>,
)
    requires
        t == gap + (a + d) + gap + (b + l) + gap + name,
    ensures
        occurs(t, d),
        occurs(t, l),
        has_suffix(t, name),
{
    lemma_inside(t, gap + a, d, gap + b + l + gap + name);
    lemma_inside(t, gap + a + d + gap + b, l, gap + name);
    lemma_end(t, gap + (a + d) + gap + (b + l) + gap, name);
}

/// How far the walk has come is said by its numbers: how many buttons have a light, of how many, and
/// which have none.
pub proof fn law_progress_is_told(p: Profile)
    ensures
        has_prefix(
            lit_text(p.controls()),
            dec(lit_to(p.controls(), p.controls().len() as int).1) + " of "@ + dec(
                lit_to(p.controls(), p.controls().len() as int).0,
            ),
        ),
        ({
            let v = unlit_to(p.controls(), p.controls().len() as int);
            v.len() > 0 ==> has_suffix(unlit_text(p), joined(v, " "@, v.len() as int)) && occurs(
                unlit_text(p),
                dec(v.len()),
            )
        }),
{
    let e = p.controls();
    let (all, lit) = lit_to(e, e.len() as int);
    lemma_front(lit_text(e), dec(lit) + " of "@ + dec(all), " buttons now have an LED slot."@);
    let v = unlit_to(e, e.len() as int);
    if v.len() > 0 {
        let w = joined(v, " "@, v.len() as int);
        lemma_inside(unlit_text(p), "  no LED slot yet ("@, dec(v.len()), "): "@ + w);
        lemma_end(unlit_text(p), "  no LED slot yet ("@ + dec(v.len()) + "): "@, w);
    }
}

/// What is said of a line that was typed in the walk names the bit; what is wrong is complained of.
pub proof fn law_typed_lines_are_answered(n: usize, w: Seq<Seq<char>>, p: Profile)
    ensures
        walk_notes(WalkCommand::Ignore(n), w, p).len() == 1,
        has_suffix(walk_notes(WalkCommand::Ignore(n), w, p)[0].text, dec(n as nat)),
        !walk_notes(WalkCommand::Ignore(n), w, p)[0].complaint,
        walk_notes(WalkCommand::Unignore(n), w, p).len() == 1,
        has_suffix(walk_notes(WalkCommand::Unignore(n), w, p)[0].text, dec(n as nat)),
        !walk_notes(WalkCommand::Unignore(n), w, p)[0].complaint,
        walk_notes(WalkCommand::BadJump, w, p).len() == 1,
        walk_notes(WalkCommand::BadJump, w, p)[0].complaint,
        walk_notes(WalkCommand::Unknown, w, p).len() == 1,
        walk_notes(WalkCommand::Unknown, w, p)[0].complaint,
        occurs(walk_notes(WalkCommand::Unknown, w, p)[0].text, w[0]),
        walk_notes(WalkCommand::List, w, p).len() == 1,
        walk_notes(WalkCommand::List, w, p)[0].text == unlit_text(p),
{
    let d = dec(n as nat);
    lemma_end(walk_notes(WalkCommand::Ignore(n), w, p)[0].text, "  ignoring bit "@, d);
    lemma_end(walk_notes(WalkCommand::Unignore(n), w, p)[0].text, "  no longer ignoring bit "@, d);
    lemma_inside(
        walk_notes(WalkCommand::Unknown, w, p)[0].text,
        crate::learn::walk::PRESS_TEXT@,
        w[0],
        "`)"@,
    );
}

/// A press in the walk that is about a bit without a name is complained of by its number; one that
/// takes a slot from a button, or moves a button to another slot, says so and names the button.
pub proof fn law_a_taken_slot_is_told(e: Seq<(String, Control)>, slot: usize, down: Seq<usize>)
    requires
        down.len() == 1,
    ensures
        ({
            let v = crate::learn::walk::press_notes(e, slot, down);
            let bit = bit_taken(e, down);
            match name_on_bit(e, bit) {
                None => v.len() == 1 && v[0].complaint && occurs(v[0].text, dec(bit as nat)),
                Some(n) => {
                    &&& forall|k: int| 0 <= k < v.len() ==> !(#[trigger] v[k]).complaint
                    &&& owner_of(e, slot) matches Some(o) ==> (o != n ==> v.len() > 0 && occurs(
                        v[0].text,
                        o,
                    ) && occurs(v[0].text, dec(slot as nat)))
                    &&& owner_of(e, slot) is None || owner_of(e, slot) == Some(n) ==> v.len() <= 1
                    &&& (owner_of(e, slot) is None || owner_of(e, slot) == Some(n)) && led_named(e, n)
                        is Some && led_named(e, n) != Some(slot) ==> v.len() == 1 && occurs(
                        v[0].text,
                        n,
                    ) && occurs(v[0].text, dec(led_named(e, n)->0 as nat))
                },
            }
        }),
{
    let v = crate::learn::walk::press_notes(e, slot, down);
    let bit = bit_taken(e, down);
    match name_on_bit(e, bit) {
        None => {
            lemma_inside(
                v[0].text,
                "  ! bit "@,
                dec(bit as nat),
                " has no name -- map it with `mk3-learn buttons`, then come back"@,
            );
        },
        Some(n) => {
            match owner_of(e, slot) {
                Some(o) if o != n => {
                    let d = dec(slot as nat);
                    lemma_inside(v[0].text, "  (slot "@, d, " taken from `"@ + o + "`)"@);
                    lemma_inside(v[0].text, "  (slot "@ + d + " taken from `"@, o, "`)"@);
                },
                _ => {
                    if led_named(e, n) is Some && led_named(e, n) != Some(slot) {
                        let d = dec(led_named(e, n)->0 as nat);
                        lemma_inside(v[0].text, "  (`"@, n, "` moved from slot "@ + d + ")"@);
                        lemma_inside(v[0].text, "  (`"@ + n + "` moved from slot "@, d, ")"@);
                    }
                },
            }
        },
    }
}

/// An analog field that changed has a line with its number and both readings, the earlier one first;
/// one that did not has none.
pub proof fn law_changed_fields_have_a_line(p: ControlState, s: ControlState, n: int)
    requires
        0 < n <= p.analog@.len(),
    ensures
        s.analog@[n - 1] == p.analog@[n - 1] ==> analog_lines(p, s, n) == analog_lines(p, s, n - 1),
        s.analog@[n - 1] != p.analog@[n - 1] ==> {
            let v = analog_lines(p, s, n);
            &&& v.drop_last() == analog_lines(p, s, n - 1)
            &&& has_prefix(v.last(), "analog "@ + dec((n - 1) as nat))
            &&& occurs(
                v.last(),
                dec(p.analog@[n - 1] as nat) + " -> "@ + flush_right(dec(s.analog@[n - 1] as nat), 5),
            )
        },
{
    if s.analog@[n - 1] != p.analog@[n - 1] {
        let t = analog_lines(p, s, n).last();
        let d = dec((n - 1) as nat);
        let x = dec(p.analog@[n - 1] as nat);
        let y = flush_right(dec(s.analog@[n - 1] as nat), 5);
        let b = crate::text::blanks(5 - x.len());
        let z = crate::learn::watch::analog_note(n - 1);
        lemma_front(t, "analog "@ + d, "     "@ + b + x + " -> "@ + y + z);
        lemma_inside(t, "analog "@ + d + "     "@ + b, x + " -> "@ + y, z);
        assert(analog_lines(p, s, n).drop_last() =~= analog_lines(p, s, n - 1));
    }
}

/// The encoder has a line where its counter changed, with both readings and the way that it went,
/// and one more where its upper counter did.
pub proof fn law_the_encoder_has_a_line(p: ControlState, s: ControlState)
    ensures
        encoder_lines(p, s).len() == (if s.encoder_lo != p.encoder_lo {
            1int
        } else {
            0
        }) + (if s.encoder_hi != p.encoder_hi {
            1int
        } else {
            0
        }),
        s.encoder_lo != p.encoder_lo ==> occurs(
            encoder_lines(p, s)[0],
            dec(p.encoder_lo as nat) + " -> "@ + dec(s.encoder_lo as nat),
        ) && occurs(
            encoder_lines(p, s)[0],
            signed(short_way(p.encoder_lo as int, s.encoder_lo as int, 16)),
        ),
        s.encoder_hi != p.encoder_hi ==> has_suffix(
            encoder_lines(p, s).last(),
            dec(p.encoder_hi as nat) + " -> "@ + dec(s.encoder_hi as nat),
        ),
{
    let v = encoder_lines(p, s);
    if s.encoder_lo != p.encoder_lo {
        let x = dec(p.encoder_lo as nat) + " -> "@ + dec(s.encoder_lo as nat);
        let w = signed(short_way(p.encoder_lo as int, s.encoder_lo as int, 16));
        lemma_inside(v[0], "encoder      "@, x, "  ("@ + w + ")"@);
        lemma_inside(v[0], "encoder      "@ + x + "  ("@, w, ")"@);
    }
    if s.encoder_hi != p.encoder_hi {
        let x = dec(p.encoder_hi as nat) + " -> "@ + dec(s.encoder_hi as nat);
        lemma_end(v.last(), "encoder-hi   "@, x);
    }
}

/// The left screen is headed by the configured title, the right one by the channels.
pub proof fn law_screens_are_headed(cfg: Config)
    ensures
        title_of(cfg, 0) == cfg.display.title@,
        has_suffix(title_of(cfg, 1), dec(cfg.knobs.channel as nat)),
        has_prefix(title_of(cfg, 1), "PADS CH "@ + dec(cfg.pads.channel as nat)),
{
    let (x, y) = ("PADS CH "@ + dec(cfg.pads.channel as nat), "  KNOBS CH "@);
    lemma_front(title_of(cfg, 1), x, y + dec(cfg.knobs.channel as nat));
    lemma_end(title_of(cfg, 1), x + y, dec(cfg.knobs.channel as nat));
}

} // verus!
