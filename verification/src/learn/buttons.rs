//! Learning which bit is which button: press one at a time, then say what it is.
use crate::config::word_at;
use crate::hid::{ControlState, BUTTON_BITS};
use crate::learn::{
    complain, complained, gathered, has_number, insert_number, live, live_bits, parse_usize,
    read_usize, remove_number, said, say, with_number, without_number, Note, NoteView, Press,
    PRESS_WINDOW_MS,
};
use crate::namemap::{inserted, lookup, position, removed};
use crate::profile::{first_on_bit, Control, ControlKind, Profile};
use crate::text::{
    bytes_to, chars_of, dec, flush_right, joined, number_list, push_bytes, push_dec, push_dec_right,
    push_joined, push_numbers, push_right, same, split_words, views, words,
};
use vstd::prelude::*;

verus! {

/// How to use the session.
pub const BUTTONS_HELP: &'static str =
    "Press one button at a time, then say what it is.\n\n  <name>            record it, e.g.  play\n  <name> <led>      record it with an LED slot, e.g.  play 21\n  <enter>           skip this press and wait for the next\n  <bit> <name>      name a specific bit, when several were down at once\n  ignore <bit>      stop treating that bit as activity (for a sticky sensor)\n  unignore <bit>    undo that\n  list              show what has been mapped so far\n  help              show this again\n  done              finish\n\n`done`, `list` and `ignore` work at any time, not only at the name prompt.\nEvery name is written to the config the moment you enter it, so stopping with\nctrl-c keeps everything mapped so far, and re-running resumes where you left\noff. Comments elsewhere in the file are left untouched.";

/// What arrived first: a device report, a typed line, or neither.
pub enum Input {
    Report(ControlState),
    Line(String),
    Timeout,
}

// Commands.

/// A typed line, read as a command.
#[derive(Debug, Clone, Copy, PartialEq, Eq, Structural)]
pub enum Command {
    /// Finish.
    Done,
    /// Show what has been mapped.
    List,
    /// Show the help.
    Help,
    /// `ignore` (true) or `unignore` without a number.
    Usage(bool),
    /// A bit that does not exist.
    BadBit(usize),
    /// Stop treating the bit as activity.
    Ignore(usize),
    /// Treat it as activity again.
    Unignore(usize),
    /// Not a command.
    NotACommand,
}

/// The command that a typed line is.
pub open spec fn command_of(w: Seq<Seq<char>>) -> Command {
    if w.len() == 0 {
        Command::NotACommand
    } else if w[0] == "done"@ || w[0] == "quit"@ || w[0] == "exit"@ {
        Command::Done
    } else if w[0] == "list"@ {
        Command::List
    } else if w[0] == "help"@ || w[0] == "?"@ {
        Command::Help
    } else if w[0] == "ignore"@ || w[0] == "unignore"@ {
        let n = if w.len() > 1 {
            read_usize(w[1])
        } else {
            None
        };
        match n {
            None => Command::Usage(w[0] == "ignore"@),
            Some(n) => if n >= BUTTON_BITS {
                Command::BadBit(n as usize)
            } else if w[0] == "ignore"@ {
                Command::Ignore(n as usize)
            } else {
                Command::Unignore(n as usize)
            },
        }
    } else {
        Command::NotACommand
    }
}

fn read_command(w: &Vec<String>) -> (r: Command)
    ensures
        r == command_of(views(w@)),
{
    if w.len() == 0 {
        return Command::NotACommand;
    }
    assert(views(w@)[0] == w@[0]@);
    let head = w[0].as_str();
    if same(head, "done") || same(head, "quit") || same(head, "exit") {
        return Command::Done;
    }
    if same(head, "list") {
        return Command::List;
    }
    if same(head, "help") || same(head, "?") {
        return Command::Help;
    }
    let ignore = same(head, "ignore");
    if ignore || same(head, "unignore") {
        let n = if w.len() > 1 {
            assert(views(w@)[1] == w@[1]@);
            parse_usize(w[1].as_str())
        } else {
            None
        };
        return match n {
            None => Command::Usage(ignore),
            Some(n) => {
                if n >= BUTTON_BITS {
                    Command::BadBit(n)
                } else if ignore {
                    Command::Ignore(n)
                } else {
                    Command::Unignore(n)
                }
            },
        };
    }
    Command::NotACommand
}

/// The ignored bits after a command.
pub open spec fn ignored_after(ignored: Seq<usize>, c: Command) -> Seq<usize> {
    match c {
        Command::Ignore(n) => with_number(ignored, n),
        Command::Unignore(n) => without_number(ignored, n),
        _ => ignored,
    }
}

// Lists.

/// The bits that the first `n` controls claim.
pub open spec fn taken_to(e: Seq<(String, Control)>, n: int) -> Seq<usize>
    decreases n,
{
    if n <= 0 {
        Seq::empty()
    } else {
        let rest = taken_to(e, n - 1);
        match e[n - 1].1.bit {
            Some(b) if e[n - 1].1.kind is Button => rest.push(b),
            _ => rest,
        }
    }
}

/// Those of the bits below `n` that are not taken.
pub open spec fn free_to(taken: Seq<usize>, n: int) -> Seq<usize>
    decreases n,
{
    if n <= 0 {
        Seq::empty()
    } else if taken.contains((n - 1) as usize) {
        free_to(taken, n - 1)
    } else {
        free_to(taken, n - 1).push((n - 1) as usize)
    }
}

/// Which button bits nobody has claimed yet, in words.
pub open spec fn unmapped_text(p: Profile) -> Seq<char> {
    let taken = taken_to(p.controls(), p.controls().len() as int);
    let free = free_to(taken, p.layout.button_bits as int);
    if free.len() == 0 {
        "  every bit is mapped."@
    } else {
        "  "@ + dec(taken.len()) + " of "@ + dec(p.layout.button_bits as nat)
            + " bits mapped; still free: "@ + number_list(free)
    }
}

fn taken_bits(p: &Profile) -> (r: Vec<usize>)
    ensures
        r@ == taken_to(p.controls(), p.controls().len() as int),
{
    let mut out: Vec<usize> = Vec::new();
    let mut i: usize = 0;
    while i < p.control.len()
        invariant
            i <= p.controls().len(),
            out@ == taken_to(p.controls(), i as int),
        decreases p.controls().len() - i,
    {
        let c = p.control.value(i);
        if c.kind == ControlKind::Button {
            if let Some(b) = c.bit {
                out.push(b);
            }
        }
        i += 1;
    }
    out
}

/// Which button bits nobody has claimed yet, in words.
///
/// Knowing what is left turns a long discovery session from open-ended into a countdown, and a gap
/// in an otherwise contiguous byte is a strong hint about what the remaining bits are.
pub fn unmapped(p: &Profile) -> (r: String)
    ensures
        r@ == unmapped_text(*p),
{
    let taken = taken_bits(p);
    let mut free: Vec<usize> = Vec::new();
    let mut b: usize = 0;
    while b < p.layout.button_bits
        invariant
            b <= p.layout.button_bits,
            free@ == free_to(taken@, b as int),
        decreases p.layout.button_bits - b,
    {
        if !has_number(&taken, b) {
            free.push(b);
        }
        b += 1;
    }
    if free.len() == 0 {
        return "  every bit is mapped.".to_owned();
    }
    let mut s = "  ".to_owned();
    push_dec(&mut s, taken.len() as u64);
    s.append(" of ");
    push_dec(&mut s, p.layout.button_bits as u64);
    s.append(" bits mapped; still free: ");
    push_numbers(&mut s, &free);
    assert(s@ =~= unmapped_text(*p));
    s
}

/// The order of the list: by bit, and a control without one in front.
pub open spec fn row_key(c: Control) -> int {
    match c.bit {
        Some(b) => b as int,
        None => -1,
    }
}

/// How many of the rows at the front do not come after `key`.
pub open spec fn row_slot(e: Seq<(String, Control)>, rows: Seq<usize>, key: int) -> nat
    decreases rows.len(),
{
    if rows.len() == 0 || row_key(e[rows[0] as int].1) > key {
        0
    } else {
        1 + row_slot(e, rows.skip(1), key)
    }
}

/// The places of the buttons among the first `n` controls, ordered by bit.
pub open spec fn rows_to(e: Seq<(String, Control)>, n: int) -> Seq<usize>
    decreases n,
{
    if n <= 0 {
        Seq::empty()
    } else {
        let rest = rows_to(e, n - 1);
        if e[n - 1].1.kind is Button {
            rest.insert(row_slot(e, rest, row_key(e[n - 1].1)) as int, (n - 1) as usize)
        } else {
            rest
        }
    }
}

/// The line of a button: its bit, its LED slot and its name.
pub open spec fn row_text(name: Seq<char>, c: Control) -> Seq<char> {
    "  "@ + flush_right(
        dec(
            match c.bit {
                Some(b) => b as nat,
                None => 0,
            },
        ),
        4,
    ) + "  "@ + flush_right(
        match c.led {
            Some(l) => dec(l as nat),
            None => "-"@,
        },
        4,
    ) + "  "@ + name
}

/// The lines that list the buttons.
pub open spec fn list_text(p: Profile) -> Seq<NoteView> {
    let e = p.controls();
    let rows = rows_to(e, e.len() as int);
    if rows.len() == 0 {
        seq![said("  (nothing mapped yet)"@)]
    } else {
        seq![said("   bit   led  name"@)] + rows.map_values(
            |i: usize| said(row_text(e[i as int].0@, e[i as int].1)),
        )
    }
}

fn row(name: &str, c: &Control) -> (r: String)
    ensures
        r@ == row_text(name@, *c),
{
    let mut s = "  ".to_owned();
    let bit: usize = match c.bit {
        Some(b) => b,
        None => 0,
    };
    push_dec_right(&mut s, bit as u64, 4);
    s.append("  ");
    match c.led {
        Some(l) => {
            push_dec_right(&mut s, l as u64, 4);
        },
        None => {
            push_right(&mut s, "-", 4);
        },
    }
    s.append("  ");
    s.append(name);
    assert(s@ =~= row_text(name@, *c));
    s
}

fn comes_after(a: &Control, b: &Control) -> (r: bool)
    ensures
        r == (row_key(*a) > row_key(*b)),
{
    match a.bit {
        None => false,
        Some(x) => match b.bit {
            None => true,
            Some(y) => x > y,
        },
    }
}

/// Every place in the list is that of a control.
proof fn lemma_rows_exist(e: Seq<(String, Control)>, n: int)
    requires
        0 <= n <= e.len() <= usize::MAX,
    ensures
        forall|k: int| 0 <= k < rows_to(e, n).len() ==> #[trigger] rows_to(e, n)[k] < n,
    decreases n,
{
    if n > 0 {
        lemma_rows_exist(e, n - 1);
        let rest = rows_to(e, n - 1);
        let all = rows_to(e, n);
        if e[n - 1].1.kind is Button {
            let p = row_slot(e, rest, row_key(e[n - 1].1)) as int;
            lemma_row_slot_bound(e, rest, row_key(e[n - 1].1));
            assert forall|k: int| 0 <= k < all.len() implies #[trigger] all[k] < n by {
                if k < p {
                    assert(all[k] == rest[k]);
                } else if k > p {
                    assert(all[k] == rest[k - 1]);
                }
            }
        }
    }
}

proof fn lemma_row_slot_bound(e: Seq<(String, Control)>, rows: Seq<usize>, key: int)
    ensures
        row_slot(e, rows, key) <= rows.len(),
    decreases rows.len(),
{
    if rows.len() > 0 && row_key(e[rows[0] as int].1) <= key {
        lemma_row_slot_bound(e, rows.skip(1), key);
    }
}

/// The views of some notes.
pub open spec fn note_views(v: Seq<Note>) -> Seq<NoteView> {
    v.map_values(|n: Note| n@)
}

/// Appends a note.
pub fn push_note(v: &mut Vec<Note>, n: Note)
    ensures
        note_views(final(v)@) == note_views(old(v)@).push(n@),
{
    v.push(n);
    assert(note_views(v@) =~= note_views(old(v)@).push(n@));
}

/// Appends the lines that list the buttons.
pub fn list(p: &Profile, out: &mut Vec<Note>)
    ensures
        note_views(final(out)@) == note_views(old(out)@) + list_text(*p),
{
    let ghost e = p.controls();
    let count: usize = p.control.len();
    let mut rows: Vec<usize> = Vec::new();
    let mut i: usize = 0;
    while i < count
        invariant
            e == p.controls(),
            count == e.len(),
            i <= e.len() <= usize::MAX,
            rows@ == rows_to(e, i as int),
        decreases e.len() - i,
    {
        let c = p.control.value(i);
        if c.kind == ControlKind::Button {
            proof {
                lemma_rows_exist(e, i as int);
            }
            let ghost key = row_key(*c);
            let mut at: usize = 0;
            assert(rows@.skip(0) =~= rows@);
            while at < rows.len() && !comes_after(p.control.value(rows[at]), c)
                invariant
                    at <= rows@.len(),
                    e == p.controls(),
                    key == row_key(*c),
                    forall|k: int| 0 <= k < rows@.len() ==> #[trigger] rows@[k] < i,
                    i < e.len(),
                    row_slot(e, rows@, key) == at + row_slot(e, rows@.skip(at as int), key),
                decreases rows@.len() - at,
            {
                assert(rows@.skip(at as int)[0] == rows@[at as int]);
                assert(rows@.skip(at as int).skip(1) =~= rows@.skip(at as int + 1));
                at += 1;
            }
            proof {
                if at < rows@.len() {
                    assert(rows@.skip(at as int)[0] == rows@[at as int]);
                }
            }
            rows.insert(at, i);
        }
        i += 1;
    }
    if rows.len() == 0 {
        push_note(out, say("  (nothing mapped yet)".to_owned()));
        assert(note_views(out@) =~= note_views(old(out)@) + list_text(*p));
        return;
    }
    push_note(out, say("   bit   led  name".to_owned()));
    proof {
        lemma_rows_exist(e, e.len() as int);
    }
    let ghost start = note_views(out@);
    let ghost lines = rows@.map_values(|i: usize| said(row_text(e[i as int].0@, e[i as int].1)));
    let mut k: usize = 0;
    while k < rows.len()
        invariant
            k <= rows@.len(),
            e == p.controls(),
            rows@ == rows_to(e, e.len() as int),
            forall|j: int| 0 <= j < rows@.len() ==> #[trigger] rows@[j] < e.len(),
            lines == rows@.map_values(|i: usize| said(row_text(e[i as int].0@, e[i as int].1))),
            note_views(out@) =~= start + lines.take(k as int),
        decreases rows@.len() - k,
    {
        let at = rows[k];
        let text = row(p.control.key(at).as_str(), p.control.value(at));
        push_note(out, say(text));
        assert(lines.take(k as int + 1) =~= lines.take(k as int).push(lines[k as int]));
        k += 1;
    }
    assert(lines.take(lines.len() as int) =~= lines);
    assert(note_views(out@) =~= note_views(old(out)@) + list_text(*p));
}

/// What a command says, given the ignored bits after it.
pub open spec fn command_notes(c: Command, p: Profile, ignored: Seq<usize>) -> Seq<NoteView> {
    match c {
        Command::List => {
            let shown = list_text(p).push(said(unmapped_text(p)));
            if ignored.len() > 0 {
                shown.push(said("  ignoring bits "@ + number_list(ignored)))
            } else {
                shown
            }
        },
        Command::Help => seq![said(BUTTONS_HELP@)],
        Command::Usage(ignore) => seq![
            complained(
                "  ! usage: "@ + (if ignore {
                    "ignore"@
                } else {
                    "unignore"@
                }) + " <bit>"@,
            ),
        ],
        Command::BadBit(n) => seq![complained("  ! bit "@ + dec(n as nat) + " is outside 0..80"@)],
        Command::Ignore(n) => seq![said("  ignoring bit "@ + dec(n as nat))],
        Command::Unignore(n) => seq![said("  no longer ignoring bit "@ + dec(n as nat))],
        _ => Seq::empty(),
    }
}

/// Carries out a typed line as a command: changes the ignored bits, and says what there is to say.
pub fn handle_command(
    line: &str,
    p: &Profile,
    ignored: &mut Vec<usize>,
    out: &mut Vec<Note>,
) -> (r: Command)
    ensures
        r == command_of(words(line@)),
        final(ignored)@ == ignored_after(old(ignored)@, r),
        note_views(final(out)@) == note_views(old(out)@) + command_notes(
            r,
            *p,
            final(ignored)@,
        ),
{
    let w = split_words(line);
    let c = read_command(&w);
    let ghost before = note_views(out@);
    match c {
        Command::List => {
            list(p, out);
            push_note(out, say(unmapped(p)));
            if ignored.len() > 0 {
                let mut s = "  ignoring bits ".to_owned();
                push_numbers(&mut s, ignored);
                push_note(out, say(s));
            }
        },
        Command::Help => {
            push_note(out, say(BUTTONS_HELP.to_owned()));
        },
        Command::Usage(ignore) => {
            let mut s = "  ! usage: ".to_owned();
            if ignore {
                s.append("ignore");
            } else {
                s.append("unignore");
            }
            s.append(" <bit>");
            push_note(out, complain(s));
        },
        Command::BadBit(n) => {
            let mut s = "  ! bit ".to_owned();
            push_dec(&mut s, n as u64);
            s.append(" is outside 0..80");
            push_note(out, complain(s));
        },
        Command::Ignore(n) => {
            insert_number(ignored, n);
            let mut s = "  ignoring bit ".to_owned();
            push_dec(&mut s, n as u64);
            push_note(out, say(s));
        },
        Command::Unignore(n) => {
            remove_number(ignored, n);
            let mut s = "  no longer ignoring bit ".to_owned();
            push_dec(&mut s, n as u64);
            push_note(out, say(s));
        },
        Command::Done => {},
        Command::NotACommand => {},
    }
    assert(note_views(out@) =~= before + command_notes(c, *p, ignored@));
    c
}

// Recording.

/// What became of a name for a bit.
#[derive(Debug)]
pub enum Recorded {
    /// The name holds other characters than letters, digits, `_` and `-`.
    BadName,
    /// The LED slot is none of 0 up to this.
    BadLed(usize),
    /// The name means another bit already.
    Taken(usize),
    /// It was recorded; what the bit was called before, and the LED slot.
    Done(Option<String>, Option<usize>),
}

/// Nothing but letters, digits, `_` and `-`.
pub open spec fn plain_name(name: Seq<char>) -> bool {
    forall|i: int| 0 <= i < name.len() ==> crate::preset::name_char(#[trigger] name[i])
}

fn is_plain(name: &str) -> (r: bool)
    ensures
        r == plain_name(name@),
{
    let cs = chars_of(name);
    let mut i: usize = 0;
    while i < cs.len()
        invariant
            cs@ == name@,
            i <= cs@.len(),
            forall|k: int| 0 <= k < i ==> crate::preset::name_char(#[trigger] name@[k]),
        decreases cs@.len() - i,
    {
        let c = cs[i];
        if !(('a' <= c && c <= 'z') || ('A' <= c && c <= 'Z') || ('0' <= c && c <= '9') || c == '-'
            || c == '_') {
            assert(!crate::preset::name_char(name@[i as int]));
            return false;
        }
        i += 1;
    }
    true
}

/// An ASCII letter in upper case; any other character as it is.
pub open spec fn upper_char(c: char) -> char {
    if 'a' <= c <= 'z' {
        ((c as u8 - 32) as u8) as char
    } else {
        c
    }
}

/// The label of a new button: its name in upper case.
pub open spec fn label_of(name: Seq<char>) -> Seq<char> {
    name.map_values(|c: char| upper_char(c))
}

fn label(name: &str) -> (r: String)
    ensures
        r@ == label_of(name@),
{
    let cs = chars_of(name);
    let mut s = String::new();
    let mut i: usize = 0;
    while i < cs.len()
        invariant
            cs@ == name@,
            i <= cs@.len(),
            s@ =~= label_of(name@.take(i as int)),
        decreases cs@.len() - i,
    {
        let c = cs[i];
        if 'a' <= c && c <= 'z' {
            s.push((c as u8 - 32) as char);
        } else {
            s.push(c);
        }
        assert(name@.take(i as int + 1) =~= name@.take(i as int).push(c));
        i += 1;
    }
    assert(name@.take(name@.len() as int) =~= name@);
    s
}

/// The LED slot that a word is.
pub open spec fn led_of(word: Option<Seq<char>>, slots: nat) -> Result<Option<usize>, ()> {
    match word {
        None => Ok(None),
        Some(t) => match read_usize(t) {
            Some(v) if v < slots => Ok(Some(v as usize)),
            _ => Err(()),
        },
    }
}

/// Whether the word is an LED slot or missing, and which one it is.
fn read_led(word: &Option<String>, count: usize) -> (r: (bool, Option<usize>))
    ensures
        match led_of(crate::config::maybe_view(*word), count as nat) {
            Ok(l) => r.0 && r.1 == l,
            Err(_) => !r.0,
        },
{
    match word {
        None => (true, None),
        Some(t) => match parse_usize(t.as_str()) {
            Some(v) => {
                if v < count {
                    (true, Some(v))
                } else {
                    (false, None)
                }
            },
            None => (false, None),
        },
    }
}

/// A control after it was recorded on a bit; a slot that is not given stays.
pub open spec fn as_button(c: Control, bit: usize, led: Option<usize>) -> Control {
    Control {
        kind: ControlKind::Button,
        bit: Some(bit),
        led: match led {
            Some(v) => Some(v),
            None => c.led,
        },
        ..c
    }
}

/// A new button.
pub open spec fn new_button(c: Control, name: Seq<char>, bit: usize, led: Option<usize>) -> bool {
    &&& c.kind is Button
    &&& c.label@ == label_of(name)
    &&& c.index == 0
    &&& c.bit == Some(bit)
    &&& c.led == led
    &&& c.led_colour is None
    &&& c.group is None
    &&& c.x is None
    &&& c.y is None
    &&& c.w is None
    &&& c.h is None
}

/// What the bit is called.
pub open spec fn name_on_bit(e: Seq<(String, Control)>, bit: usize) -> Option<Seq<char>> {
    let i = first_on_bit(e, bit, 0, e.len() as int);
    if i < e.len() {
        Some(e[i].0@)
    } else {
        None
    }
}

/// The controls without the one that the bit belonged to under another name: a bit can only belong
/// to one control.
pub open spec fn retired(e: Seq<(String, Control)>, bit: usize, name: Seq<char>) -> Seq<
    (String, Control),
> {
    match name_on_bit(e, bit) {
        Some(old) if old != name => removed(e, old),
        _ => e,
    }
}

/// `after` are the controls `e` with the name recorded for the bit.
pub open spec fn recorded_as(
    e: Seq<(String, Control)>,
    after: Seq<(String, Control)>,
    bit: usize,
    name: Seq<char>,
    led: Option<usize>,
) -> bool {
    let rest = retired(e, bit, name);
    match lookup(rest, name) {
        Some(c) => {
            let p = position(rest, name) as int;
            after == rest.update(p, (rest[p].0, as_button(c, bit, led)))
        },
        None => exists|k: String, c: Control|
            #![trigger inserted(rest, k, c)]
            k@ == name && new_button(c, name, bit, led) && after == inserted(rest, k, c),
    }
}

/// Whether the name means another bit already.
pub open spec fn means_other(e: Seq<(String, Control)>, name: Seq<char>, bit: usize) -> bool {
    match lookup(e, name) {
        Some(c) => c.bit is Some && c.bit->0 != bit,
        None => false,
    }
}

/// `q` is the profile `p` after a name was given for a bit, with the word for an LED slot where
/// there was one, and `r` is what became of it.
pub open spec fn record_outcome(
    p: Profile,
    q: Profile,
    bit: usize,
    name: Seq<char>,
    led: Option<Seq<char>>,
    r: Recorded,
) -> bool {
    let e = p.controls();
    let slots = p.report.slots();
    let slot = led_of(led, slots);
    &&& q.device == p.device
    &&& q.report == p.report
    &&& q.layout == p.layout
    &&& p.control.wf() ==> q.control.wf()
    &&& match r {
        Recorded::BadName => !plain_name(name) && q == p,
        Recorded::BadLed(n) => plain_name(name) && slot is Err && n == (if slots > 0 {
            slots - 1
        } else {
            0
        }) && q == p,
        Recorded::Taken(b) => plain_name(name) && slot is Ok && means_other(e, name, bit) && lookup(
            e,
            name,
        )->0.bit == Some(b) && q == p,
        Recorded::Done(renamed, l) => {
            &&& plain_name(name)
            &&& slot == Ok::<Option<usize>, ()>(l)
            &&& !means_other(e, name, bit)
            &&& crate::config::maybe_view(renamed) == (match name_on_bit(e, bit) {
                Some(o) if o != name => Some(o),
                _ => None,
            })
            &&& recorded_as(e, q.controls(), bit, name, l)
        },
    }
}

/// Record one button into the profile.
///
/// Reusing a name would silently move it off the control it already describes, leaving that
/// control unmapped and the profile quietly wrong, so that is refused.
pub fn record(profile: &mut Profile, bit: usize, name: &str, led: &Option<String>) -> (r: Recorded)
    requires
        old(profile).report.slots() <= usize::MAX,
    ensures
        record_outcome(
            *old(profile),
            *final(profile),
            bit,
            name@,
            crate::config::maybe_view(*led),
            r,
        ),
{
    if !is_plain(name) {
        return Recorded::BadName;
    }
    let count: usize = profile.report.led_count();
    let (ok, slot) = read_led(led, count);
    if !ok {
        return Recorded::BadLed(
            if count > 0 {
                count - 1
            } else {
                0
            },
        );
    }
    if let Some(existing) = profile.get(name) {
        if let Some(b) = existing.bit {
            if b != bit {
                return Recorded::Taken(b);
            }
        }
    }
    let ghost e = profile.controls();
    let old_name: Option<String> = match profile.button_at_bit(bit) {
        Some((n, _)) => Some(n.clone()),
        None => None,
    };
    let mut renamed: Option<String> = None;
    if let Some(o) = old_name {
        if !same(o.as_str(), name) {
            let _ = profile.control.remove(o.as_str());
            renamed = Some(o);
        }
    }
    let ghost rest = profile.controls();
    assert(rest == retired(e, bit, name@));
    let known = match profile.control.get_mut(name) {
        Some(c) => {
            c.kind = ControlKind::Button;
            c.bit = Some(bit);
            if slot.is_some() {
                c.led = slot;
            }
            true
        },
        None => false,
    };
    if !known {
        let c = Control {
            kind: ControlKind::Button,
            label: label(name),
            index: 0,
            bit: Some(bit),
            led: slot,
            led_colour: None,
            group: None,
            x: None,
            y: None,
            w: None,
            h: None,
        };
        let key = name.to_owned();
        profile.control.insert(key, c);
        assert(profile.controls() == inserted(rest, key, c));
    }
    Recorded::Done(renamed, slot)
}

/// A button that was recorded is found under its name, on its bit; the name that the bit had
/// before is gone; and no other control changes.
pub proof fn law_recorded_buttons_are_found(
    e: Seq<(String, Control)>,
    after: Seq<(String, Control)>,
    bit: usize,
    name: Seq<char>,
    led: Option<usize>,
    other: Seq<char>,
)
    requires
        crate::namemap::in_order(e),
        recorded_as(e, after, bit, name, led),
    ensures
        lookup(after, name) is Some,
        lookup(after, name)->0.claims_bit(bit),
        led is Some ==> lookup(after, name)->0.led == led,
        match name_on_bit(e, bit) {
            Some(o) => o != name ==> lookup(after, o) is None,
            None => true,
        },
        other != name && name_on_bit(e, bit) != Some(other) ==> lookup(after, other) == lookup(
            e,
            other,
        ),
{
    let rest = retired(e, bit, name);
    let o = name_on_bit(e, bit);
    assert(crate::namemap::in_order(rest)) by {
        if o is Some && o->0 != name {
            lemma_removed_in_order(e, o->0);
        }
    }
    if o is Some && o->0 != name {
        crate::namemap::law_remove_then_get(e, o->0, o->0);
        crate::namemap::law_remove_then_get(e, o->0, other);
    }
    match lookup(rest, name) {
        Some(c) => {
            let p = position(rest, name) as int;
            crate::namemap::lemma_position(rest, name);
            lemma_update_keeps_positions(rest, p, as_button(c, bit, led), name);
            lemma_update_keeps_positions(rest, p, as_button(c, bit, led), other);
            if o is Some {
                lemma_update_keeps_positions(rest, p, as_button(c, bit, led), o->0);
            }
            crate::namemap::lemma_position(rest, other);
        },
        None => {
            let (k, c) = choose|k: String, c: Control|
                #![trigger inserted(rest, k, c)]
                k@ == name && new_button(c, name, bit, led) && after == inserted(rest, k, c);
            crate::namemap::law_insert_then_get(rest, k, c, other);
            if o is Some {
                crate::namemap::law_insert_then_get(rest, k, c, o->0);
            }
        },
    }
}

proof fn lemma_removed_in_order(e: Seq<(String, Control)>, key: Seq<char>)
    requires
        crate::namemap::in_order(e),
    ensures
        crate::namemap::in_order(removed(e, key)),
{
    let p = position(e, key) as int;
    let f = removed(e, key);
    if p < e.len() {
        assert forall|a: int, b: int| 0 <= a < b < f.len() implies crate::text::before(
            #[trigger] f[a].0@,
            #[trigger] f[b].0@,
        ) by {
            let c = if a < p {
                a
            } else {
                a + 1
            };
            let d = if b < p {
                b
            } else {
                b + 1
            };
            assert(f[a] == e[c]);
            assert(f[b] == e[d]);
        }
    }
}

/// Changing a value changes no name's place.
proof fn lemma_update_keeps_positions(
    e: Seq<(String, Control)>,
    p: int,
    c: Control,
    key: Seq<char>,
)
    requires
        0 <= p < e.len(),
    ensures
        position(e.update(p, (e[p].0, c)), key) == position(e, key),
{
    let f = e.update(p, (e[p].0, c));
    crate::namemap::lemma_position(e, key);
    let q = position(e, key) as int;
    assert forall|i: int| 0 <= i < q implies (#[trigger] f[i]).0@ != key by {
        assert(f[i].0 == e[i].0);
        assert(e[i].0@ != key);
    }
    crate::namemap::lemma_position_is(f, key, q);
}

/// What is said of a name for a bit.
pub open spec fn record_notes(name: Seq<char>, r: Recorded) -> Seq<NoteView> {
    match r {
        Recorded::BadName => seq![
            complained("  ! names may only contain letters, digits, `_` and `-`"@),
        ],
        Recorded::BadLed(n) => seq![
            complained("  ! LED slot must be 0.."@ + dec(n as nat) + "; nothing recorded"@),
        ],
        Recorded::Taken(b) => seq![
            complained(
                "  ! `"@ + name + "` already means bit Some("@ + dec(b as nat)
                    + "); pick another name or rename that one first"@,
            ),
        ],
        Recorded::Done(renamed, _) => match renamed {
            Some(o) => seq![said("  (renamed `"@ + o@ + "` to `"@ + name + "`)"@)],
            None => Seq::empty(),
        },
    }
}

fn push_record_notes(name: &str, r: &Recorded, out: &mut Vec<Note>)
    ensures
        note_views(final(out)@) == note_views(old(out)@) + record_notes(name@, *r),
{
    match r {
        Recorded::BadName => {
            push_note(
                out,
                complain("  ! names may only contain letters, digits, `_` and `-`".to_owned()),
            );
        },
        Recorded::BadLed(n) => {
            let mut s = "  ! LED slot must be 0..".to_owned();
            push_dec(&mut s, *n as u64);
            s.append("; nothing recorded");
            push_note(out, complain(s));
        },
        Recorded::Taken(b) => {
            let mut s = "  ! `".to_owned();
            s.append(name);
            s.append("` already means bit Some(");
            push_dec(&mut s, *b as u64);
            s.append("); pick another name or rename that one first");
            push_note(out, complain(s));
        },
        Recorded::Done(renamed, _) => {
            if let Some(o) = renamed {
                let mut s = "  (renamed `".to_owned();
                s.append(o.as_str());
                s.append("` to `");
                s.append(name);
                s.append("`)");
                push_note(out, say(s));
            }
        },
    }
    assert(note_views(out@) =~= note_views(old(out)@) + record_notes(name@, *r));
}

/// A button that was recorded and has to be saved.
#[derive(Debug)]
pub struct Saved {
    pub name: String,
    pub bit: usize,
    pub led: Option<usize>,
}

/// What is said once a button is saved.
pub open spec fn saved_text(name: Seq<char>, bit: usize, led: Option<usize>) -> Seq<char> {
    "  ok: "@ + name + " = bit "@ + dec(bit as nat) + (match led {
        Some(v) => ", led "@ + dec(v as nat),
        None => Seq::empty(),
    }) + "  [saved]"@
}

impl Saved {
    /// What is said once the button is saved.
    pub fn text(&self) -> (r: String)
        ensures
            r@ == saved_text(self.name@, self.bit, self.led),
    {
        let mut s = "  ok: ".to_owned();
        s.append(self.name.as_str());
        s.append(" = bit ");
        push_dec(&mut s, self.bit as u64);
        if let Some(v) = self.led {
            s.append(", led ");
            push_dec(&mut s, v as u64);
        }
        s.append("  [saved]");
        assert(s@ =~= saved_text(self.name@, self.bit, self.led));
        s
    }
}

// The session.

/// Where a session stands.
pub enum Phase {
    /// Waiting for everything to be released, so the next press starts from a known-quiet state;
    /// whether it was said that something is still held.
    Settling(bool),
    /// Waiting for a press, or collecting one.
    Collecting(Press),
    /// Asking for the name of this bit, of those that were pressed.
    Naming(usize, Vec<usize>),
    /// Over.
    Finished,
}

/// Where a session stands, as a model.
pub enum PhaseView {
    Settling(bool),
    Collecting(Seq<usize>),
    Naming(usize, Seq<usize>),
    Finished,
}

impl View for Phase {
    type V = PhaseView;

    open spec fn view(&self) -> PhaseView {
        match *self {
            Phase::Settling(w) => PhaseView::Settling(w),
            Phase::Collecting(p) => PhaseView::Collecting(p.down@),
            Phase::Naming(b, d) => PhaseView::Naming(b, d@),
            Phase::Finished => PhaseView::Finished,
        }
    }
}

impl PhaseView {
    /// Whether a press is waited for and nothing was pressed yet.
    pub open spec fn quiet(self) -> bool {
        self matches PhaseView::Collecting(d) && d.len() == 0
    }

    /// Whether a press is being collected.
    pub open spec fn open(self) -> bool {
        self matches PhaseView::Collecting(d) && d.len() > 0
    }
}

/// A session of naming buttons.
///
/// Two things make this harder than watching for a rising edge. A button still held when the next
/// round begins has no edge to detect, so each round waits for the field to go quiet and takes
/// what is held then. And the 4-D encoder reports its touch sensor a few milliseconds *before* the
/// direction being tilted, so activity is accumulated over a short window.
pub struct Session {
    pub ignored: Vec<usize>,
    pub phase: Phase,
}

/// What a session is about to do: its phase, the ignored bits, and what it says.
pub struct Turn {
    pub phase: PhaseView,
    pub ignored: Seq<usize>,
    pub notes: Seq<NoteView>,
}

/// What is said of a line that is no command while nothing was pressed.
pub open spec fn too_early() -> Seq<char> {
    "  (nothing to name yet -- press a button first)"@
}

/// A typed line while a press is waited for.
pub open spec fn line_turn(phase: PhaseView, ignored: Seq<usize>, p: Profile, line: Seq<char>) -> Turn {
    let c = command_of(words(line));
    let after = ignored_after(ignored, c);
    Turn {
        phase: if c is Done {
            PhaseView::Finished
        } else {
            phase
        },
        ignored: after,
        notes: if c is NotACommand {
            seq![said(too_early())]
        } else {
            command_notes(c, p, after)
        },
    }
}

/// How long something may be held before it is said so, in milliseconds.
pub const STUCK_MS: u64 = 1500;

/// A report while everything is to be released.
pub open spec fn settle_turn(
    warned: bool,
    ignored: Seq<usize>,
    s: ControlState,
    elapsed_ms: u64,
) -> Turn {
    let down = live(s, ignored);
    if down.len() == 0 {
        Turn { phase: PhaseView::Collecting(Seq::empty()), ignored, notes: Seq::empty() }
    } else if !warned && elapsed_ms > STUCK_MS {
        Turn {
            phase: PhaseView::Settling(true),
            ignored,
            notes: seq![
                said(
                    "  ...still held: "@ + number_list(down)
                        + ". If one of these is stuck, type `ignore <bit>`."@,
                ),
            ],
        }
    } else {
        Turn { phase: PhaseView::Settling(warned), ignored, notes: Seq::empty() }
    }
}

/// A report while a press is waited for or collected.
pub open spec fn collect_turn(
    down: Seq<usize>,
    ignored: Seq<usize>,
    s: ControlState,
    debug: bool,
) -> Turn {
    let more = live(s, ignored);
    Turn {
        phase: PhaseView::Collecting(gathered(down, more, more.len() as int)),
        ignored,
        notes: if debug {
            seq![said("  debug: buttons=["@ + bytes_to(s.buttons@, ", "@, 10) + "]"@)]
        } else {
            Seq::empty()
        },
    }
}

/// The first of the bits from `i` on that has no name yet.
pub open spec fn first_unnamed(e: Seq<(String, Control)>, down: Seq<usize>, i: int) -> Option<usize>
    decreases down.len() - i,
{
    if i < 0 || i >= down.len() {
        None
    } else if name_on_bit(e, down[i]) is None {
        Some(down[i])
    } else {
        first_unnamed(e, down, i + 1)
    }
}

/// The bit that a press is about: the first that nobody has claimed, and the first of all where
/// every one is. With the encoder, the touch sensor is already named by the time the directions
/// are being learned, so this picks the direction.
pub open spec fn bit_meant(e: Seq<(String, Control)>, down: Seq<usize>) -> usize {
    match first_unnamed(e, down, 0) {
        Some(b) => b,
        None => down[0],
    }
}

/// A bit and what it is called.
pub open spec fn bit_text(e: Seq<(String, Control)>, bit: usize) -> Seq<char> {
    dec(bit as nat) + " ("@ + (match name_on_bit(e, bit) {
        Some(n) => n,
        None => "new"@,
    }) + ")"@
}

/// The bits that were pressed, each with what it is called.
pub open spec fn bit_texts(e: Seq<(String, Control)>, down: Seq<usize>) -> Seq<Seq<char>> {
    down.map_values(|b: usize| bit_text(e, b))
}

/// What is said when a press is over.
pub open spec fn press_notes(e: Seq<(String, Control)>, down: Seq<usize>) -> Seq<NoteView> {
    let bit = bit_meant(e, down);
    (if down.len() > 1 {
        seq![
            said("  bits down: "@ + joined(bit_texts(e, down), ", "@, down.len() as int)),
        ]
    } else {
        Seq::empty()
    }).push(
        said(
            "bit "@ + flush_right(dec(bit as nat), 2) + (match name_on_bit(e, bit) {
                Some(n) => " -- already mapped to `"@ + n + "`"@,
                None => " -- new"@,
            }),
        ),
    )
}

/// The window is over: the name is asked for, or, where nothing was pressed, the next round begins.
pub open spec fn close_turn(down: Seq<usize>, ignored: Seq<usize>, p: Profile) -> Turn {
    if down.len() == 0 {
        Turn { phase: PhaseView::Settling(false), ignored, notes: Seq::empty() }
    } else {
        Turn {
            phase: PhaseView::Naming(bit_meant(p.controls(), down), down),
            ignored,
            notes: press_notes(p.controls(), down),
        }
    }
}

/// What a session does with what arrived. `elapsed_ms` is how long it has been settling.
pub open spec fn session_turn(
    phase: PhaseView,
    ignored: Seq<usize>,
    p: Profile,
    input: Input,
    elapsed_ms: u64,
    debug: bool,
) -> Turn {
    match phase {
        PhaseView::Settling(warned) => match input {
            Input::Line(l) => line_turn(phase, ignored, p, l@),
            Input::Timeout => Turn {
                phase: PhaseView::Collecting(Seq::empty()),
                ignored,
                notes: Seq::empty(),
            },
            Input::Report(s) => settle_turn(warned, ignored, s, elapsed_ms),
        },
        PhaseView::Collecting(down) => match input {
            Input::Line(l) => line_turn(phase, ignored, p, l@),
            Input::Timeout => if down.len() > 0 {
                close_turn(down, ignored, p)
            } else {
                Turn { phase, ignored, notes: Seq::empty() }
            },
            Input::Report(s) => collect_turn(down, ignored, s, debug),
        },
        _ => Turn { phase, ignored, notes: Seq::empty() },
    }
}

fn name_of(p: &Profile, bit: usize) -> (r: Option<String>)
    ensures
        crate::config::maybe_view(r) == name_on_bit(p.controls(), bit),
{
    match p.button_at_bit(bit) {
        Some((n, _)) => Some(n.clone()),
        None => None,
    }
}

fn choose_bit(p: &Profile, down: &Vec<usize>) -> (r: usize)
    requires
        down@.len() > 0,
    ensures
        r == bit_meant(p.controls(), down@),
{
    let mut i: usize = 0;
    while i < down.len()
        invariant
            i <= down@.len(),
            first_unnamed(p.controls(), down@, 0) == first_unnamed(p.controls(), down@, i as int),
        decreases down@.len() - i,
    {
        if name_of(p, down[i]).is_none() {
            return down[i];
        }
        i += 1;
    }
    down[0]
}

fn push_press_notes(p: &Profile, down: &Vec<usize>, out: &mut Vec<Note>) -> (bit: usize)
    requires
        down@.len() > 0,
    ensures
        bit == bit_meant(p.controls(), down@),
        note_views(final(out)@) == note_views(old(out)@) + press_notes(p.controls(), down@),
{
    let ghost e = p.controls();
    let bit: usize = choose_bit(p, down);
    if down.len() > 1 {
        let mut texts: Vec<String> = Vec::new();
        let mut i: usize = 0;
        while i < down.len()
            invariant
                i <= down@.len(),
                e == p.controls(),
                views(texts@) =~= bit_texts(e, down@.take(i as int)),
            decreases down@.len() - i,
        {
            let mut t = crate::text::decimal(down[i] as u64);
            t.append(" (");
            match name_of(p, down[i]) {
                Some(n) => {
                    t.append(n.as_str());
                },
                None => {
                    t.append("new");
                },
            }
            t.append(")");
            assert(t@ =~= bit_text(e, down@[i as int]));
            let ghost prior = texts@;
            texts.push(t);
            assert(views(texts@) =~= views(prior).push(t@));
            assert(bit_texts(e, down@.take(i as int + 1)) =~= bit_texts(
                e,
                down@.take(i as int),
            ).push(t@));
            i += 1;
        }
        assert(down@.take(down@.len() as int) =~= down@);
        let mut s = "  bits down: ".to_owned();
        push_joined(&mut s, &texts, ", ");
        assert(views(texts@).len() == texts@.len());
        push_note(out, say(s));
    }
    let mut s = "bit ".to_owned();
    push_dec_right(&mut s, bit as u64, 2);
    match name_of(p, bit) {
        Some(n) => {
            s.append(" -- already mapped to `");
            s.append(n.as_str());
            s.append("`");
        },
        None => {
            s.append(" -- new");
        },
    }
    assert(s@ =~= "bit "@ + flush_right(dec(bit as nat), 2) + (match name_on_bit(e, bit) {
        Some(n) => " -- already mapped to `"@ + n + "`"@,
        None => " -- new"@,
    }));
    push_note(out, say(s));
    assert(note_views(out@) =~= note_views(old(out)@) + press_notes(e, down@));
    bit
}

impl Session {
    /// A session about to begin its first round.
    pub fn new() -> (r: Self)
        ensures
            r.phase@ == PhaseView::Settling(false),
            r.ignored@.len() == 0,
    {
        Session { ignored: Vec::new(), phase: Phase::Settling(false) }
    }

    /// How many milliseconds to wait for the next input; nothing once the window of a press is
    /// over. `elapsed_ms` is how long it has been open.
    pub fn wait_ms(&self, elapsed_ms: u64) -> (r: Option<i32>)
        ensures
            match self.phase@ {
                PhaseView::Collecting(down) => if down.len() > 0 {
                    if elapsed_ms >= PRESS_WINDOW_MS {
                        r is None
                    } else {
                        r is Some && r->0 == PRESS_WINDOW_MS - elapsed_ms
                    }
                } else {
                    r == Some(200i32)
                },
                _ => r == Some(200i32),
            },
    {
        match &self.phase {
            Phase::Collecting(p) => p.wait_ms(elapsed_ms),
            _ => Some(200),
        }
    }

    fn line(&mut self, p: &Profile, line: &str, out: &mut Vec<Note>)
        ensures
            ({
                let t = line_turn(old(self).phase@, old(self).ignored@, *p, line@);
                &&& final(self).phase@ == t.phase
                &&& final(self).ignored@ == t.ignored
                &&& note_views(final(out)@) == note_views(old(out)@) + t.notes
            }),
    {
        let ghost before = note_views(out@);
        let c = handle_command(line, p, &mut self.ignored, out);
        match c {
            Command::Done => {
                self.phase = Phase::Finished;
            },
            Command::NotACommand => {
                push_note(
                    out,
                    say("  (nothing to name yet -- press a button first)".to_owned()),
                );
                assert(note_views(out@) =~= before + seq![said(too_early())]);
            },
            _ => {},
        }
    }

    /// The window of a press is over.
    pub fn close(&mut self, p: &Profile, out: &mut Vec<Note>)
        requires
            old(self).phase@ is Collecting,
        ensures
            ({
                let t = close_turn(old(self).phase@->Collecting_0, old(self).ignored@, *p);
                &&& final(self).phase@ == t.phase
                &&& final(self).ignored@ == t.ignored
                &&& note_views(final(out)@) == note_views(old(out)@) + t.notes
            }),
    {
        let mut down: Vec<usize> = Vec::new();
        if let Phase::Collecting(p) = &self.phase {
            down = copy_numbers(&p.down);
        }
        if down.len() == 0 {
            self.phase = Phase::Settling(false);
            assert(note_views(out@) =~= note_views(old(out)@) + Seq::<NoteView>::empty());
            return;
        }
        let bit: usize = push_press_notes(p, &down, out);
        self.phase = Phase::Naming(bit, down);
    }

    /// Acts on what arrived while a press is waited for. `elapsed_ms` is how long the session has
    /// been settling. Returns whether the clock of the press starts now, which it does with the
    /// first bit that goes down.
    pub fn on_input(
        &mut self,
        p: &Profile,
        input: Input,
        elapsed_ms: u64,
        debug: bool,
        out: &mut Vec<Note>,
    ) -> (r: bool)
        ensures
            r == (old(self).phase@.quiet() && final(self).phase@.open()),
            ({
                let t = session_turn(
                    old(self).phase@,
                    old(self).ignored@,
                    *p,
                    input,
                    elapsed_ms,
                    debug,
                );
                &&& final(self).phase@ == t.phase
                &&& final(self).ignored@ == t.ignored
                &&& note_views(final(out)@) == note_views(old(out)@) + t.notes
            }),
    {
        let ghost before = note_views(out@);
        assert(before =~= before + Seq::<NoteView>::empty());
        let settling = matches!(&self.phase, Phase::Settling(_));
        let collecting = matches!(&self.phase, Phase::Collecting(_));
        if !settling && !collecting {
            return false;
        }
        let quiet = matches!(&self.phase, Phase::Collecting(q) if q.down.len() == 0);
        match input {
            Input::Line(l) => {
                self.line(p, l.as_str(), out);
            },
            Input::Timeout => {
                if settling {
                    self.phase = Phase::Collecting(Press::new());
                    assert(self.phase@->Collecting_0 =~= Seq::empty());
                } else {
                    let open = match &self.phase {
                        Phase::Collecting(q) => q.down.len() > 0,
                        _ => false,
                    };
                    if open {
                        self.close(p, out);
                    }
                }
            },
            Input::Report(s) => {
                if settling {
                    self.settle(&s, elapsed_ms, out);
                } else {
                    self.collect(&s, debug, out);
                }
            },
        }
        quiet && (match &self.phase {
            Phase::Collecting(q) => q.down.len() > 0,
            _ => false,
        })
    }

    fn settle(&mut self, s: &ControlState, elapsed_ms: u64, out: &mut Vec<Note>)
        requires
            old(self).phase@ is Settling,
        ensures
            ({
                let t = settle_turn(
                    old(self).phase@->Settling_0,
                    old(self).ignored@,
                    *s,
                    elapsed_ms,
                );
                &&& final(self).phase@ == t.phase
                &&& final(self).ignored@ == t.ignored
                &&& note_views(final(out)@) == note_views(old(out)@) + t.notes
            }),
    {
        let ghost before = note_views(out@);
        assert(before =~= before + Seq::<NoteView>::empty());
        let down = live_bits(s, &self.ignored);
        if down.len() == 0 {
            self.phase = Phase::Collecting(Press::new());
            assert(self.phase@->Collecting_0 =~= Seq::empty());
            return;
        }
        let warned = match &self.phase {
            Phase::Settling(w) => *w,
            _ => true,
        };
        if !warned && elapsed_ms > STUCK_MS {
            self.phase = Phase::Settling(true);
            let mut t = "  ...still held: ".to_owned();
            push_numbers(&mut t, &down);
            t.append(". If one of these is stuck, type `ignore <bit>`.");
            push_note(out, say(t));
            assert(note_views(out@) =~= before + seq![said(t@)]);
        }
    }

    fn collect(&mut self, s: &ControlState, debug: bool, out: &mut Vec<Note>)
        requires
            old(self).phase@ is Collecting,
        ensures
            ({
                let t = collect_turn(
                    old(self).phase@->Collecting_0,
                    old(self).ignored@,
                    *s,
                    debug,
                );
                &&& final(self).phase@ == t.phase
                &&& final(self).ignored@ == t.ignored
                &&& note_views(final(out)@) == note_views(old(out)@) + t.notes
            }),
    {
        let ghost before = note_views(out@);
        assert(before =~= before + Seq::<NoteView>::empty());
        if debug {
            let mut t = "  debug: buttons=[".to_owned();
            let bytes: &[u8] = s.buttons.as_slice();
            push_bytes(&mut t, bytes, ", ");
            t.append("]");
            push_note(out, say(t));
            assert(note_views(out@) =~= before + seq![said(t@)]);
        }
        let mut down: Vec<usize> = Vec::new();
        if let Phase::Collecting(p) = &self.phase {
            down = copy_numbers(&p.down);
        }
        let mut press = Press { down };
        press.report(s, &self.ignored);
        self.phase = Phase::Collecting(press);
    }
}

pub(crate) fn copy_numbers(v: &Vec<usize>) -> (r: Vec<usize>)
    ensures
        r@ == v@,
{
    let mut out: Vec<usize> = Vec::new();
    let mut i: usize = 0;
    while i < v.len()
        invariant
            i <= v@.len(),
            out@ =~= v@.take(i as int),
        decreases v@.len() - i,
    {
        out.push(v[i]);
        i += 1;
    }
    assert(out@ =~= v@);
    out
}

// Naming.

/// What a line at the name prompt asks for.
pub enum Naming {
    /// Nothing was typed.
    Skip,
    /// A command.
    Command(Command),
    /// A bit that was not pressed.
    NotAmong(usize),
    /// A bit without a name.
    Using(usize),
    /// This name for this bit, with the word for an LED slot where there is one.
    Record(usize, Seq<char>, Option<Seq<char>>),
}

/// What a line at the name prompt asks for. A bare number picks a different bit out of the ones
/// just seen.
pub open spec fn naming_of(w: Seq<Seq<char>>, bit: usize, down: Seq<usize>) -> Naming {
    if w.len() == 0 {
        Naming::Skip
    } else if !(command_of(w) is NotACommand) {
        Naming::Command(command_of(w))
    } else {
        match read_usize(w[0]) {
            Some(n) => if !down.contains(n as usize) {
                Naming::NotAmong(n as usize)
            } else if w.len() < 2 {
                Naming::Using(n as usize)
            } else {
                Naming::Record(n as usize, w[1], word_at(w, 2))
            },
            None => Naming::Record(bit, w[0], word_at(w, 1)),
        }
    }
}

/// What is said of a line at the name prompt that records nothing.
pub open spec fn naming_notes(
    n: Naming,
    p: Profile,
    ignored: Seq<usize>,
    down: Seq<usize>,
) -> Seq<NoteView> {
    match n {
        Naming::Skip => seq![said("  skipped"@)],
        Naming::Command(c) => command_notes(c, p, ignored),
        Naming::NotAmong(b) => seq![
            complained("  ! bit "@ + dec(b as nat) + " was not among "@ + number_list(down)),
        ],
        Naming::Using(b) => seq![
            said("  using bit "@ + dec(b as nat) + "; press the button again to name it"@),
        ],
        Naming::Record(_, _, _) => Seq::empty(),
    }
}

/// What a line asks for in that phase.
pub open spec fn asked(phase: PhaseView, line: Seq<char>) -> Naming {
    naming_of(words(line), phase->Naming_0, phase->Naming_1)
}

/// `q` is the profile `p` after a name was given for a bit, the notes `before` have become
/// `after`, and `r` is what has to be saved.
pub open spec fn record_said(
    p: Profile,
    q: Profile,
    bit: usize,
    name: Seq<char>,
    led: Option<Seq<char>>,
    before: Seq<NoteView>,
    after: Seq<NoteView>,
    r: Option<Saved>,
) -> bool {
    exists|o: Recorded|
        #![trigger record_notes(name, o)]
        {
            &&& record_outcome(p, q, bit, name, led, o)
            &&& after == before + record_notes(name, o)
            &&& match o {
                Recorded::Done(_, l) => r matches Some(s) && s.name@ == name && s.bit == bit
                    && s.led == l,
                _ => r is None,
            }
        }
}

fn word(w: &Vec<String>, i: usize) -> (r: Option<String>)
    ensures
        crate::config::maybe_view(r) == word_at(views(w@), i as int),
{
    if i < w.len() {
        assert(views(w@)[i as int] == w@[i as int]@);
        Some(w[i].clone())
    } else {
        None
    }
}

fn record_named(
    profile: &mut Profile,
    bit: usize,
    name: &str,
    led: &Option<String>,
    out: &mut Vec<Note>,
) -> (r: Option<Saved>)
    requires
        old(profile).report.slots() <= usize::MAX,
    ensures
        record_said(
            *old(profile),
            *final(profile),
            bit,
            name@,
            crate::config::maybe_view(*led),
            note_views(old(out)@),
            note_views(final(out)@),
            r,
        ),
{
    let o = record(profile, bit, name, led);
    push_record_notes(name, &o, out);
    let r = match &o {
        Recorded::Done(_, l) => Some(Saved { name: name.to_owned(), bit, led: *l }),
        _ => None,
    };
    assert(note_views(out@) == note_views(old(out)@) + record_notes(name@, o));
    r
}

impl Session {
    /// Acts on a line at the name prompt; what it returns has to be saved. The next round begins,
    /// unless the session is over.
    pub fn on_name(&mut self, profile: &mut Profile, line: &str, out: &mut Vec<Note>) -> (r: Option<
        Saved,
    >)
        requires
            old(self).phase@ is Naming,
            old(profile).report.slots() <= usize::MAX,
        ensures
            final(self).phase@ == (if asked(old(self).phase@, line@) matches Naming::Command(
                Command::Done,
            ) {
                PhaseView::Finished
            } else {
                PhaseView::Settling(false)
            }),
            final(self).ignored@ == (match asked(old(self).phase@, line@) {
                Naming::Command(c) => ignored_after(old(self).ignored@, c),
                _ => old(self).ignored@,
            }),
            !(asked(old(self).phase@, line@) is Record) ==> r is None && *final(profile) == *old(
                profile,
            ) && note_views(final(out)@) == note_views(old(out)@) + naming_notes(
                asked(old(self).phase@, line@),
                *old(profile),
                final(self).ignored@,
                old(self).phase@->Naming_1,
            ),
            asked(old(self).phase@, line@) matches Naming::Record(b, name, led) ==> record_said(
                *old(profile),
                *final(profile),
                b,
                name,
                led,
                note_views(old(out)@),
                note_views(final(out)@),
                r,
            ),
    {
        let ghost before = note_views(out@);
        let mut bit: usize = 0;
        let mut down: Vec<usize> = Vec::new();
        if let Phase::Naming(b, d) = &self.phase {
            bit = *b;
            down = copy_numbers(d);
        }
        let w = split_words(line);
        assert(views(w@).len() == w@.len());
        if w.len() == 0 {
            push_note(out, say("  skipped".to_owned()));
            assert(note_views(out@) =~= before + seq![said("  skipped"@)]);
            self.phase = Phase::Settling(false);
            return None;
        }
        let c = handle_command(line, profile, &mut self.ignored, out);
        match c {
            Command::NotACommand => {},
            Command::Done => {
                self.phase = Phase::Finished;
                return None;
            },
            _ => {
                self.phase = Phase::Settling(false);
                return None;
            },
        }
        assert(note_views(out@) =~= before);
        self.phase = Phase::Settling(false);
        assert(views(w@)[0] == w@[0]@);
        match parse_usize(w[0].as_str()) {
            Some(n) => {
                if !has_number(&down, n) {
                    let mut s = "  ! bit ".to_owned();
                    push_dec(&mut s, n as u64);
                    s.append(" was not among ");
                    push_numbers(&mut s, &down);
                    push_note(out, complain(s));
                    assert(note_views(out@) =~= before + seq![complained(s@)]);
                    return None;
                }
                if w.len() < 2 {
                    let mut s = "  using bit ".to_owned();
                    push_dec(&mut s, n as u64);
                    s.append("; press the button again to name it");
                    push_note(out, say(s));
                    assert(note_views(out@) =~= before + seq![said(s@)]);
                    return None;
                }
                assert(views(w@)[1] == w@[1]@);
                let led = word(&w, 2);
                record_named(profile, n, w[1].as_str(), &led, out)
            },
            None => {
                let led = word(&w, 1);
                record_named(profile, bit, w[0].as_str(), &led, out)
            },
        }
    }
}

// What a session promises.

proof fn lemma_command_words()
    ensures
        "done"@.len() == 4 && "quit"@.len() == 4 && "exit"@.len() == 4 && "list"@.len() == 4
            && "help"@.len() == 4,
        "?"@.len() == 1,
        "ignore"@.len() == 6 && "unignore"@.len() == 8,
        "list"@ != "done"@ && "list"@ != "quit"@ && "list"@ != "exit"@,
        "help"@ != "done"@ && "help"@ != "quit"@ && "help"@ != "exit"@ && "help"@ != "list"@,
{
    reveal_strlit("done");
    reveal_strlit("quit");
    reveal_strlit("exit");
    reveal_strlit("list");
    reveal_strlit("help");
    reveal_strlit("?");
    reveal_strlit("ignore");
    reveal_strlit("unignore");
    assert("list"@[0] == 'l' && "help"@[0] == 'h' && "done"@[0] == 'd' && "quit"@[0] == 'q' && "exit"@[0]
        == 'e');
}

/// A typed line is told by its first word, and a bit to ignore is the number behind it: one of the
/// eighty, or the line is refused.
pub proof fn law_commands_are_told_by_their_first_word(rest: Seq<Seq<char>>, n: nat)
    requires
        n <= usize::MAX,
    ensures
        command_of(seq!["done"@] + rest) is Done,
        command_of(seq!["quit"@] + rest) is Done,
        command_of(seq!["exit"@] + rest) is Done,
        command_of(seq!["list"@] + rest) is List,
        command_of(seq!["help"@] + rest) is Help,
        command_of(seq!["?"@] + rest) is Help,
        n < 80 ==> command_of(seq!["ignore"@, dec(n)] + rest) == Command::Ignore(n as usize),
        n < 80 ==> command_of(seq!["unignore"@, dec(n)] + rest) == Command::Unignore(n as usize),
        n >= 80 ==> command_of(seq!["ignore"@, dec(n)] + rest) == Command::BadBit(n as usize),
        command_of(seq!["ignore"@]) == Command::Usage(true),
        command_of(seq!["unignore"@]) == Command::Usage(false),
        command_of(Seq::empty()) is NotACommand,
{
    lemma_command_words();
    crate::text::law_decimal_reads_back(n, usize::MAX as nat);
    assert((seq!["ignore"@, dec(n)] + rest)[1] == dec(n));
    assert((seq!["unignore"@, dec(n)] + rest)[1] == dec(n));
}

/// An ignored bit no longer counts as pressed, until it is unignored again; no other bit is touched.
pub proof fn law_ignored_bits_do_not_count(
    s: ControlState,
    ignored: Seq<usize>,
    n: usize,
    bit: usize,
)
    requires
        n < BUTTON_BITS,
    ensures
        !live(s, ignored_after(ignored, Command::Ignore(n))).contains(n),
        s.held(n as int) ==> live(s, ignored_after(ignored, Command::Unignore(n))).contains(n),
        bit != n ==> (live(s, ignored_after(ignored, Command::Ignore(n))).contains(bit) <==> live(
            s,
            ignored,
        ).contains(bit)),
        bit != n ==> (live(s, ignored_after(ignored, Command::Unignore(n))).contains(bit) <==> live(
            s,
            ignored,
        ).contains(bit)),
{
    let all = BUTTON_BITS as int;
    let (more, less) = (with_number(ignored, n), without_number(ignored, n));
    crate::learn::law_numbers_come_and_go(ignored, n, n);
    crate::learn::law_numbers_come_and_go(ignored, n, bit);
    crate::learn::law_live_bits(s, more, all, n);
    crate::learn::law_live_bits(s, less, all, n);
    crate::learn::law_live_bits(s, more, all, bit);
    crate::learn::law_live_bits(s, less, all, bit);
    crate::learn::law_live_bits(s, ignored, all, bit);
}

/// A bit is free exactly where no button has it.
pub proof fn law_free_bits_belong_to_nobody(e: Seq<(String, Control)>, n: int, bit: usize)
    requires
        0 <= n,
        n <= usize::MAX,
    ensures
        free_to(taken_to(e, e.len() as int), n).contains(bit) <==> bit < n && forall|i: int|
            0 <= i < e.len() ==> !(#[trigger] e[i]).1.claims_bit(bit),
{
    let taken = taken_to(e, e.len() as int);
    lemma_taken(e, e.len() as int, bit);
    lemma_free(taken, n, bit);
}

proof fn lemma_taken(e: Seq<(String, Control)>, n: int, bit: usize)
    requires
        0 <= n <= e.len(),
    ensures
        taken_to(e, n).contains(bit) <==> exists|i: int|
            0 <= i < n && (#[trigger] e[i]).1.claims_bit(bit),
    decreases n,
{
    if n > 0 {
        lemma_taken(e, n - 1, bit);
        let rest = taken_to(e, n - 1);
        let all = taken_to(e, n);
        if rest.contains(bit) {
            let k = rest.index_of(bit);
            assert(all[k] == bit);
        }
        if e[n - 1].1.claims_bit(bit) {
            assert(all.last() == bit);
        }
        if all.contains(bit) && !rest.contains(bit) {
            let k = all.index_of(bit);
            assert(k == rest.len());
            assert(e[n - 1].1.claims_bit(bit));
        }
    }
}

proof fn lemma_free(taken: Seq<usize>, n: int, bit: usize)
    requires
        0 <= n <= usize::MAX,
    ensures
        free_to(taken, n).contains(bit) <==> bit < n && !taken.contains(bit),
    decreases n,
{
    if n > 0 {
        lemma_free(taken, n - 1, bit);
        let rest = free_to(taken, n - 1);
        let all = free_to(taken, n);
        if rest.contains(bit) {
            let k = rest.index_of(bit);
            assert(all[k] == bit);
        }
        if !taken.contains((n - 1) as usize) {
            assert(all.last() == (n - 1) as usize);
            if all.contains(bit) && !rest.contains(bit) {
                let k = all.index_of(bit);
                assert(k == rest.len());
            }
        }
    }
}

/// The list has every button.
pub proof fn law_the_list_has_every_button(e: Seq<(String, Control)>, n: int, i: int)
    requires
        0 <= i < n <= e.len() <= usize::MAX,
        e[i].1.kind is Button,
    ensures
        rows_to(e, n).contains(i as usize),
    decreases n,
{
    let rest = rows_to(e, n - 1);
    let rows = rows_to(e, n);
    let key = row_key(e[n - 1].1);
    let p = row_slot(e, rest, key) as int;
    lemma_row_slot_bound(e, rest, key);
    if i == n - 1 {
        assert(rows[p] == i as usize);
    } else {
        law_the_list_has_every_button(e, n - 1, i);
        let k = rest.index_of(i as usize);
        assert(rest[k] == i as usize);
        if e[n - 1].1.kind is Button {
            if k < p {
                assert(rows[k] == i as usize);
            } else {
                assert(rows[k + 1] == i as usize);
            }
        }
    }
}

/// The list goes by the bits.
pub proof fn law_the_list_is_by_bit(e: Seq<(String, Control)>, n: int, k: int, l: int)
    requires
        0 <= n <= e.len() <= usize::MAX,
        0 <= k < l < rows_to(e, n).len(),
    ensures
        row_key(e[rows_to(e, n)[k] as int].1) <= row_key(e[rows_to(e, n)[l] as int].1),
    decreases n,
{
    if n > 0 {
        let rest = rows_to(e, n - 1);
        if e[n - 1].1.kind is Button {
            let key = row_key(e[n - 1].1);
            let p = row_slot(e, rest, key) as int;
            lemma_row_slot_parts(e, rest, key);
            let a = if k < p {
                k
            } else {
                k - 1
            };
            let b = if l < p {
                l
            } else {
                l - 1
            };
            if k == p {
                assert(row_key(e[rest[p] as int].1) > key);
                if b > p {
                    law_the_list_is_by_bit(e, n - 1, p, b);
                }
            } else if l == p {
                assert(row_key(e[rest[a] as int].1) <= key);
            } else {
                law_the_list_is_by_bit(e, n - 1, a, b);
            }
        } else {
            law_the_list_is_by_bit(e, n - 1, k, l);
        }
    }
}

proof fn lemma_row_slot_parts(e: Seq<(String, Control)>, rows: Seq<usize>, key: int)
    ensures
        row_slot(e, rows, key) <= rows.len(),
        row_slot(e, rows, key) < rows.len() ==> row_key(
            e[rows[row_slot(e, rows, key) as int] as int].1,
        ) > key,
        forall|k: int|
            0 <= k < row_slot(e, rows, key) ==> row_key(e[#[trigger] rows[k] as int].1) <= key,
    decreases rows.len(),
{
    if rows.len() > 0 && row_key(e[rows[0] as int].1) <= key {
        lemma_row_slot_parts(e, rows.skip(1), key);
        assert forall|k: int| 0 <= k < row_slot(e, rows, key) implies row_key(
            e[#[trigger] rows[k] as int].1,
        ) <= key by {
            if k > 0 {
                assert(rows.skip(1)[k - 1] == rows[k]);
            }
        }
    }
}

/// The bit that a press is about is one that was pressed, and one that has no name yet wherever
/// there is such a one.
pub proof fn law_a_press_is_about_a_new_bit(e: Seq<(String, Control)>, down: Seq<usize>)
    requires
        down.len() > 0,
    ensures
        down.contains(bit_meant(e, down)),
        (exists|i: int| 0 <= i < down.len() && name_on_bit(e, #[trigger] down[i]) is None)
            ==> name_on_bit(e, bit_meant(e, down)) is None,
{
    lemma_first_unnamed(e, down, 0);
    assert(down.contains(down[0]));
}

proof fn lemma_first_unnamed(e: Seq<(String, Control)>, down: Seq<usize>, i: int)
    requires
        0 <= i,
    ensures
        first_unnamed(e, down, i) matches Some(b) ==> down.contains(b) && name_on_bit(e, b) is None,
        first_unnamed(e, down, i) is None ==> forall|k: int|
            i <= k < down.len() ==> name_on_bit(e, #[trigger] down[k]) is Some,
    decreases down.len() - i,
{
    if i < down.len() {
        lemma_first_unnamed(e, down, i + 1);
    }
}

/// A round begins once everything is let go, collects what is pressed then, and asks for a name when
/// the window is over. What is held too long is said once.
pub proof fn law_a_round_waits_collects_and_asks(
    ignored: Seq<usize>,
    p: Profile,
    s: ControlState,
    ms: u64,
    warned: bool,
    down: Seq<usize>,
)
    ensures
        ({
            let t = session_turn(
                PhaseView::Settling(warned),
                ignored,
                p,
                Input::Report(s),
                ms,
                false,
            );
            &&& t.phase.quiet() <==> live(s, ignored).len() == 0
            &&& !t.phase.quiet() ==> t.phase == PhaseView::Settling(warned || ms > 1500)
            &&& t.notes.len() > 0 <==> live(s, ignored).len() > 0 && !warned && ms > 1500
            &&& t.ignored == ignored
        }),
        ({
            let t = session_turn(
                PhaseView::Collecting(down),
                ignored,
                p,
                Input::Report(s),
                ms,
                false,
            );
            t.phase matches PhaseView::Collecting(d) && forall|b: usize|
                #![trigger d.contains(b)]
                d.contains(b) <==> down.contains(b) || live(s, ignored).contains(b)
        }),
        ({
            let t = session_turn(PhaseView::Collecting(down), ignored, p, Input::Timeout, ms, false);
            &&& down.len() == 0 ==> t.phase.quiet() && t.notes.len() == 0
            &&& down.len() > 0 ==> (t.phase matches PhaseView::Naming(b, d) && d == down
                && down.contains(b))
        }),
{
    let more = live(s, ignored);
    assert forall|b: usize|
        #![trigger gathered(down, more, more.len() as int).contains(b)]
        gathered(down, more, more.len() as int).contains(b) <==> down.contains(b) || more.contains(
            b,
        ) by {
        lemma_gathered(down, more, more.len() as int, b);
    }
    if down.len() > 0 {
        law_a_press_is_about_a_new_bit(p.controls(), down);
    }
}

proof fn lemma_gathered(v: Seq<usize>, more: Seq<usize>, n: int, b: usize)
    requires
        0 <= n <= more.len(),
    ensures
        gathered(v, more, n).contains(b) <==> v.contains(b) || exists|k: int|
            0 <= k < n && #[trigger] more[k] == b,
    decreases n,
{
    if n > 0 {
        lemma_gathered(v, more, n - 1, b);
        crate::learn::law_numbers_come_and_go(gathered(v, more, n - 1), more[n - 1], b);
    }
}

/// At the prompt a word is the name of the bit that was asked about, with the word behind it for the
/// slot. A number picks another of the bits that were pressed, and nothing skips.
pub proof fn law_a_line_at_the_prompt_names_the_bit(
    name: Seq<char>,
    slot: Seq<char>,
    other: nat,
    bit: usize,
    down: Seq<usize>,
)
    requires
        other <= usize::MAX,
        command_of(seq![name]) is NotACommand,
        read_usize(name) is None,
    ensures
        naming_of(Seq::empty(), bit, down) is Skip,
        naming_of(seq![name], bit, down) == Naming::Record(bit, name, None),
        naming_of(seq![name, slot], bit, down) == Naming::Record(bit, name, Some(slot)),
        down.contains(other as usize) ==> naming_of(seq![dec(other), name], bit, down)
            == Naming::Record(other as usize, name, None),
        down.contains(other as usize) ==> naming_of(seq![dec(other)], bit, down) == Naming::Using(
            other as usize,
        ),
        !down.contains(other as usize) ==> naming_of(seq![dec(other)], bit, down)
            == Naming::NotAmong(other as usize),
{
    lemma_command_words();
    crate::text::law_decimal_reads_back(other, usize::MAX as nat);
    reveal_strlit("done");
    reveal_strlit("quit");
    reveal_strlit("exit");
    reveal_strlit("list");
    reveal_strlit("help");
    reveal_strlit("?");
    reveal_strlit("ignore");
    reveal_strlit("unignore");
    assert(crate::text::is_digit(dec(other)[0]));
}

/// A new button is labelled with its name in capitals, and a slot has to be one that there is.
pub proof fn law_labels_are_capitals(name: Seq<char>, i: int, n: nat, slots: nat)
    requires
        0 <= i < name.len(),
        n <= usize::MAX,
    ensures
        label_of(name).len() == name.len(),
        'a' <= name[i] <= 'z' ==> label_of(name)[i] as int == name[i] as int - 32,
        !('a' <= name[i] <= 'z') ==> label_of(name)[i] == name[i],
        n < slots ==> led_of(Some(dec(n)), slots) == Ok::<Option<usize>, ()>(Some(n as usize)),
        n >= slots ==> led_of(Some(dec(n)), slots) is Err,
        led_of(None, slots) == Ok::<Option<usize>, ()>(None),
{
    crate::text::law_decimal_reads_back(n, usize::MAX as nat);
}

/// A name of letters, digits, `_` and `-` is recorded for its bit, unless the name means another bit
/// or the word for a slot is none. Any other name is refused, and a refusal changes nothing.
pub proof fn law_a_name_is_recorded_where_it_can_be(
    p: Profile,
    q: Profile,
    bit: usize,
    name: Seq<char>,
    led: Option<Seq<char>>,
    r: Recorded,
    i: int,
)
    requires
        crate::namemap::in_order(p.controls()),
        record_outcome(p, q, bit, name, led, r),
        0 <= i < name.len(),
    ensures
        !(name[i] == '_' || name[i] == '-' || '0' <= name[i] <= '9' || 'a' <= name[i] <= 'z' || 'A'
            <= name[i] <= 'Z') ==> r is BadName,
        r is BadName ==> exists|k: int|
            #![trigger name[k]]
            0 <= k < name.len() && !(name[k] == '_' || name[k] == '-' || '0' <= name[k] <= '9'
                || 'a' <= name[k] <= 'z' || 'A' <= name[k] <= 'Z'),
        r is Taken ==> lookup(p.controls(), name) is Some && lookup(p.controls(), name)->0.bit
            is Some && lookup(p.controls(), name)->0.bit != Some(bit),
        r is BadLed ==> led is Some,
        !(r is BadName) && led is None && (lookup(p.controls(), name) is None || lookup(
            p.controls(),
            name,
        )->0.bit is None || lookup(p.controls(), name)->0.bit == Some(bit)) ==> r is Done,
        !(r is Done) ==> q == p,
        r is Done ==> lookup(q.controls(), name) is Some && lookup(q.controls(), name)->0.bit
            == Some(bit),
        q.device == p.device && q.report == p.report && q.layout == p.layout,
{
    if !crate::preset::name_char(name[i]) {
        assert(!plain_name(name));
    }
    if let Recorded::Done(_, l) = r {
        law_recorded_buttons_are_found(p.controls(), q.controls(), bit, name, l, name);
    }
}

/// A word for a slot is the slot's number, and counts where the device has that slot.
pub proof fn law_a_slot_is_given_by_its_number(n: nat, slots: nat)
    requires
        n <= usize::MAX,
    ensures
        n < slots ==> led_of(Some(dec(n)), slots) == Ok::<Option<usize>, ()>(Some(n as usize)),
        n >= slots ==> led_of(Some(dec(n)), slots) is Err,
        led_of(None, slots) == Ok::<Option<usize>, ()>(None),
{
    crate::text::law_decimal_reads_back(n, usize::MAX as nat);
}

} // verus!
