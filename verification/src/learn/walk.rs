//! Learning which LED slot is which button: slots light one at a time, and the button that lit up
//! is pressed.
//!
//! Pressing the button that just lit needs no knowledge of what the config calls it, and is
//! self-checking: if the wrong light comes on, the wrong button gets pressed and the mistake is
//! obvious immediately. Buttons must already have their bit mapped: that is what turns a press into
//! a name.
use crate::config::{maybe_view, word_at};
use crate::hid::BUTTON_BITS;
use crate::learn::buttons::{copy_numbers, name_on_bit, note_views, push_note, Input};
use crate::learn::{
    ascends, complain, complained, gathered, has_number, law_gathered_in_order, live, live_bits,
    parse_usize, read_usize, remove_number, said, say, without_number, Note, NoteView, Press,
    PRESS_WINDOW_MS,
};
use crate::leds::{dark, lit, Leds, BANK0_LEN, LED_COUNT};
use crate::namemap::{lookup, position};
use crate::profile::{first_on_bit, first_on_led, Control, ControlKind, Profile};
use crate::text::{
    dec, ends_with, flush_right, has_prefix, has_suffix, joined, push_dec, push_dec_right,
    push_joined, same, split_words, starts_with, views, words,
};
use vstd::prelude::*;

verus! {

// The command line.

/// The arguments that are numbers: neither options nor a file.
pub open spec fn positional(args: Seq<Seq<char>>) -> Seq<Seq<char>>
    decreases args.len(),
{
    if args.len() == 0 {
        Seq::empty()
    } else {
        let rest = positional(args.drop_last());
        if has_prefix(args.last(), "--"@) || has_suffix(args.last(), ".toml"@) {
            rest
        } else {
            rest.push(args.last())
        }
    }
}

/// The first of the arguments from `i` on that is a file.
pub open spec fn file_arg(args: Seq<Seq<char>>, i: int) -> Option<Seq<char>>
    decreases args.len() - i,
{
    if i < 0 || i >= args.len() {
        None
    } else if has_suffix(args[i], ".toml"@) {
        Some(args[i])
    } else {
        file_arg(args, i + 1)
    }
}

/// The first argument that is a file.
pub fn find_file(args: &Vec<String>) -> (r: Option<String>)
    ensures
        maybe_view(r) == file_arg(views(args@), 0),
{
    let ghost all = views(args@);
    let mut i: usize = 0;
    while i < args.len()
        invariant
            i <= args@.len(),
            all == views(args@),
            all.len() == args@.len(),
            file_arg(all, 0) == file_arg(all, i as int),
        decreases args@.len() - i,
    {
        assert(all[i as int] == args@[i as int]@);
        if ends_with(args[i].as_str(), ".toml") {
            return Some(args[i].clone());
        }
        i += 1;
    }
    None
}

/// Why there are no slots to walk.
#[derive(Debug)]
pub enum RangeError {
    /// This argument is not a number.
    Number(String),
    /// The start is not below the end.
    Empty(usize, usize),
}

/// A number, or the default where there is none.
pub open spec fn number_or(w: Option<Seq<char>>, default: nat) -> Option<nat> {
    match w {
        None => Some(default),
        Some(t) => read_usize(t),
    }
}

/// What is said of slots that are none.
pub open spec fn empty_range_text(start: nat, end: nat) -> Seq<char> {
    "start "@ + dec(start) + " must be below end "@ + dec(end)
}

impl RangeError {
    /// What is said of it, where it is not the number that is wrong.
    pub fn message(&self) -> (r: Option<String>)
        ensures
            match *self {
                RangeError::Empty(a, b) => maybe_view(r) == Some(
                    empty_range_text(a as nat, b as nat),
                ),
                RangeError::Number(_) => r is None,
            },
    {
        match self {
            RangeError::Number(_) => None,
            RangeError::Empty(a, b) => {
                let mut s = "start ".to_owned();
                push_dec(&mut s, *a as u64);
                s.append(" must be below end ");
                push_dec(&mut s, *b as u64);
                assert(s@ =~= empty_range_text(*a as nat, *b as nat));
                Some(s)
            },
        }
    }
}

fn positional_args(args: &Vec<String>) -> (r: Vec<String>)
    ensures
        views(r@) == positional(views(args@)),
{
    let ghost all = views(args@);
    let mut out: Vec<String> = Vec::new();
    let mut i: usize = 0;
    assert(all.take(0) =~= Seq::empty());
    assert(views(out@) =~= Seq::empty());
    while i < args.len()
        invariant
            i <= args@.len(),
            all == views(args@),
            views(out@) == positional(all.take(i as int)),
        decreases args@.len() - i,
    {
        assert(all[i as int] == args@[i as int]@);
        assert(all.take(i as int + 1).drop_last() =~= all.take(i as int));
        let a = args[i].as_str();
        if !(starts_with(a, "--") || ends_with(a, ".toml")) {
            let ghost prior = out@;
            out.push(args[i].clone());
            assert(views(out@) =~= views(prior).push(all[i as int]));
        }
        i += 1;
    }
    assert(all.take(all.len() as int) =~= all);
    out
}

fn number_at(w: &Vec<String>, i: usize, default: usize) -> (r: Option<usize>)
    ensures
        match r {
            Some(n) => number_or(word_at(views(w@), i as int), default as nat) == Some(n as nat),
            None => number_or(word_at(views(w@), i as int), default as nat) is None && i < w@.len(),
        },
{
    if i < w.len() {
        assert(views(w@)[i as int] == w@[i as int]@);
        parse_usize(w[i].as_str())
    } else {
        Some(default)
    }
}

/// The slots to walk: from the first number up to the second, by default all of the buttons' and
/// never past the last slot.
pub fn walk_range(args: &Vec<String>) -> (r: Result<(usize, usize), RangeError>)
    ensures
        ({
            let w = positional(views(args@));
            let start = number_or(word_at(w, 0), 0);
            let end = number_or(word_at(w, 1), BANK0_LEN as nat);
            match r {
                Ok((a, b)) => start == Some(a as nat) && end is Some && b == (if end->0
                    < LED_COUNT {
                    end->0
                } else {
                    LED_COUNT as nat
                }) && a < b,
                Err(RangeError::Empty(a, b)) => start == Some(a as nat) && end is Some && b == (if
                    end->0 < LED_COUNT {
                    end->0
                } else {
                    LED_COUNT as nat
                }) && a >= b,
                Err(RangeError::Number(t)) => (start is None && t@ == w[0]) || (start is Some
                    && end is None && t@ == w[1]),
            }
        }),
{
    let w = positional_args(args);
    let start: usize = match number_at(&w, 0, 0) {
        Some(n) => n,
        None => {
            assert(views(w@)[0] == w@[0]@);
            return Err(RangeError::Number(w[0].clone()));
        },
    };
    let end: usize = match number_at(&w, 1, BANK0_LEN) {
        Some(n) => n,
        None => {
            assert(views(w@)[1] == w@[1]@);
            return Err(RangeError::Number(w[1].clone()));
        },
    };
    let end: usize = if end < LED_COUNT {
        end
    } else {
        LED_COUNT
    };
    if start >= end {
        return Err(RangeError::Empty(start, end));
    }
    Ok((start, end))
}

// Typed lines.

/// A typed line.
#[derive(Debug, Clone, Copy, PartialEq, Eq, Structural)]
pub enum WalkCommand {
    /// Skip this slot.
    Next,
    /// Finish.
    Finish,
    /// Back one slot.
    Back,
    /// To this slot.
    Jump(usize),
    /// `j` without a slot that exists.
    BadJump,
    /// Stop treating the bit as a press.
    Ignore(usize),
    /// Treat it as a press again.
    Unignore(usize),
    /// `ignore` (true) or `unignore` without a bit that exists.
    Usage(bool),
    /// Show the buttons that have no slot yet.
    List,
    /// Anything else.
    Unknown,
}

/// What a typed line asks for.
pub open spec fn walk_command_of(w: Seq<Seq<char>>) -> WalkCommand {
    if w.len() == 0 || w[0] == "skip"@ {
        WalkCommand::Next
    } else if w[0] == "done"@ || w[0] == "q"@ || w[0] == "quit"@ {
        WalkCommand::Finish
    } else if w[0] == "b"@ {
        WalkCommand::Back
    } else if w[0] == "j"@ {
        match (if w.len() > 1 {
            read_usize(w[1])
        } else {
            None
        }) {
            Some(n) if n < LED_COUNT => WalkCommand::Jump(n as usize),
            _ => WalkCommand::BadJump,
        }
    } else if w[0] == "ignore"@ || w[0] == "unignore"@ {
        match (if w.len() > 1 {
            read_usize(w[1])
        } else {
            None
        }) {
            Some(n) if n < BUTTON_BITS => if w[0] == "ignore"@ {
                WalkCommand::Ignore(n as usize)
            } else {
                WalkCommand::Unignore(n as usize)
            },
            _ => WalkCommand::Usage(w[0] == "ignore"@),
        }
    } else if w[0] == "list"@ {
        WalkCommand::List
    } else {
        WalkCommand::Unknown
    }
}

fn read_walk_command(w: &Vec<String>) -> (r: WalkCommand)
    ensures
        r == walk_command_of(views(w@)),
{
    if w.len() == 0 {
        return WalkCommand::Next;
    }
    assert(views(w@)[0] == w@[0]@);
    let head = w[0].as_str();
    if same(head, "skip") {
        return WalkCommand::Next;
    }
    if same(head, "done") || same(head, "q") || same(head, "quit") {
        return WalkCommand::Finish;
    }
    if same(head, "b") {
        return WalkCommand::Back;
    }
    let n = if w.len() > 1 {
        assert(views(w@)[1] == w@[1]@);
        parse_usize(w[1].as_str())
    } else {
        None
    };
    if same(head, "j") {
        return match n {
            Some(n) => if n < LED_COUNT {
                WalkCommand::Jump(n)
            } else {
                WalkCommand::BadJump
            },
            None => WalkCommand::BadJump,
        };
    }
    let ignore = same(head, "ignore");
    if ignore || same(head, "unignore") {
        return match n {
            Some(n) => if n < BUTTON_BITS {
                if ignore {
                    WalkCommand::Ignore(n)
                } else {
                    WalkCommand::Unignore(n)
                }
            } else {
                WalkCommand::Usage(ignore)
            },
            None => WalkCommand::Usage(ignore),
        };
    }
    if same(head, "list") {
        return WalkCommand::List;
    }
    WalkCommand::Unknown
}

/// The names of the buttons without a slot among the first `n` controls.
pub open spec fn unlit_to(e: Seq<(String, Control)>, n: int) -> Seq<Seq<char>>
    decreases n,
{
    if n <= 0 {
        Seq::empty()
    } else {
        let rest = unlit_to(e, n - 1);
        if e[n - 1].1.kind is Button && e[n - 1].1.led is None {
            rest.push(e[n - 1].0@)
        } else {
            rest
        }
    }
}

/// The buttons that have no slot yet, in words.
pub open spec fn unlit_text(p: Profile) -> Seq<char> {
    let v = unlit_to(p.controls(), p.controls().len() as int);
    if v.len() == 0 {
        "  every mapped button has an LED slot."@
    } else {
        "  no LED slot yet ("@ + dec(v.len()) + "): "@ + joined(v, " "@, v.len() as int)
    }
}

fn unlit(p: &Profile) -> (r: String)
    ensures
        r@ == unlit_text(*p),
{
    let mut v: Vec<String> = Vec::new();
    let mut i: usize = 0;
    assert(views(v@) =~= Seq::empty());
    while i < p.control.len()
        invariant
            i <= p.controls().len(),
            views(v@) == unlit_to(p.controls(), i as int),
        decreases p.controls().len() - i,
    {
        let c = p.control.value(i);
        if c.kind == ControlKind::Button && c.led.is_none() {
            let ghost prior = v@;
            v.push(p.control.key(i).clone());
            assert(views(v@) =~= views(prior).push(p.controls()[i as int].0@));
        }
        i += 1;
    }
    assert(views(v@).len() == v@.len());
    if v.len() == 0 {
        return "  every mapped button has an LED slot.".to_owned();
    }
    let mut s = "  no LED slot yet (".to_owned();
    push_dec(&mut s, v.len() as u64);
    s.append("): ");
    push_joined(&mut s, &v, " ");
    assert(s@ =~= unlit_text(*p));
    s
}

/// What is said of a typed line.
pub open spec fn walk_notes(c: WalkCommand, w: Seq<Seq<char>>, p: Profile) -> Seq<NoteView> {
    match c {
        WalkCommand::BadJump => seq![complained("  ! usage: j <slot 0..102>"@)],
        WalkCommand::Ignore(n) => seq![said("  ignoring bit "@ + dec(n as nat))],
        WalkCommand::Unignore(n) => seq![said("  no longer ignoring bit "@ + dec(n as nat))],
        WalkCommand::Usage(ignore) => seq![
            complained(
                "  ! usage: "@ + (if ignore {
                    "ignore"@
                } else {
                    "unignore"@
                }) + " <bit>"@,
            ),
        ],
        WalkCommand::List => seq![said(unlit_text(p))],
        WalkCommand::Unknown => seq![complained(PRESS_TEXT@ + w[0] + "`)"@)],
        _ => Seq::empty(),
    }
}

/// What is said of a line that is no command.
pub const PRESS_TEXT: &'static str =
    "  ! press the lit button, or type enter / b / j / ignore / list / done (got `";

/// Where a walk stands with the slot that it is at.
#[derive(Debug)]
pub enum Stage {
    /// The slot is to be lit.
    Lighting,
    /// Waiting for the field to go quiet, so that a button still held from the slot before is not
    /// read as the answer to this one.
    Settling,
    /// Waiting for a press, or collecting one.
    Collecting(Press),
    /// These bits were pressed.
    Pressed(Vec<usize>),
    /// Over.
    Finished,
}

/// Where a walk stands with the slot that it is at, as a model.
pub enum StageView {
    Lighting,
    Settling,
    Collecting(Seq<usize>),
    Pressed(Seq<usize>),
    Finished,
}

impl View for Stage {
    type V = StageView;

    open spec fn view(&self) -> StageView {
        match *self {
            Stage::Lighting => StageView::Lighting,
            Stage::Settling => StageView::Settling,
            Stage::Collecting(p) => StageView::Collecting(p.down@),
            Stage::Pressed(d) => StageView::Pressed(d@),
            Stage::Finished => StageView::Finished,
        }
    }
}

impl StageView {
    /// Whether nothing was pressed yet.
    pub open spec fn quiet(self) -> bool {
        self matches StageView::Collecting(d) && d.len() == 0
    }

    /// Whether a press is being collected.
    pub open spec fn open(self) -> bool {
        self matches StageView::Collecting(d) && d.len() > 0
    }
}

/// A walk over the LED slots.
pub struct Walk {
    /// The slot that is lit.
    pub slot: usize,
    /// One past the last slot of the walk.
    pub end: usize,
    /// The bits that do not count as a press.
    pub ignored: Vec<usize>,
    /// What was recorded, in order.
    pub recorded: Vec<(usize, String)>,
    /// Where it stands with the slot that is lit.
    pub stage: Stage,
}

/// What lights either kind of LED: a monochrome one at full brightness, a colour one too.
pub const WALK_BYTE: u8 = 0x7f;

/// How long the field is given to go quiet, in milliseconds.
pub const QUIET_MS: i32 = 150;

/// The slot after a typed line.
pub open spec fn slot_after(slot: usize, c: WalkCommand) -> usize {
    match c {
        WalkCommand::Next => (slot + 1) as usize,
        WalkCommand::Back => if slot > 0 {
            (slot - 1) as usize
        } else {
            0
        },
        WalkCommand::Jump(n) => n,
        _ => slot,
    }
}

/// The ignored bits after a typed line.
pub open spec fn walk_ignored(ignored: Seq<usize>, c: WalkCommand) -> Seq<usize> {
    match c {
        WalkCommand::Ignore(n) => if ignored.contains(n) {
            ignored
        } else {
            ignored.push(n)
        },
        WalkCommand::Unignore(n) => without_number(ignored, n),
        _ => ignored,
    }
}

/// The line that says which slot is lit.
pub open spec fn slot_text(slot: usize, owner: Option<Seq<char>>) -> Seq<char> {
    "slot "@ + flush_right(dec(slot as nat), 3) + " is lit"@ + (match owner {
        Some(n) => "  [currently "@ + n + "]"@,
        None => Seq::empty(),
    })
}

/// Whom a slot belongs to.
pub open spec fn owner_of(e: Seq<(String, Control)>, slot: usize) -> Option<Seq<char>> {
    let i = first_on_led(e, slot, 0, e.len() as int);
    if i < e.len() {
        Some(e[i].0@)
    } else {
        None
    }
}

fn owner(p: &Profile, slot: usize) -> (r: Option<String>)
    ensures
        maybe_view(r) == owner_of(p.controls(), slot),
{
    match p.control_at_led(slot) {
        Some((n, _)) => Some(n.clone()),
        None => None,
    }
}

impl Walk {
    /// A walk from `start` up to `end`.
    pub fn new(start: usize, end: usize) -> (r: Self)
        ensures
            r.slot == start,
            r.end == end,
            r.ignored@.len() == 0,
            r.recorded@.len() == 0,
            r.stage@ == StageView::Lighting,
    {
        Walk {
            slot: start,
            end,
            ignored: Vec::new(),
            recorded: Vec::new(),
            stage: Stage::Lighting,
        }
    }

    /// Whether a slot is left to walk.
    pub fn going(&self) -> (r: bool)
        ensures
            r == (self.slot < self.end && !(self.stage@ is Finished)),
    {
        self.slot < self.end && !matches!(&self.stage, Stage::Finished)
    }

    /// Lights the slot, and no other.
    pub fn light(&mut self, leds: &mut Leds)
        requires
            old(self).slot < LED_COUNT,
        ensures
            final(leds).bytes() == lit(dark(), old(self).slot as int, WALK_BYTE),
            final(leds).changed(),
            final(leds).last_sent() == old(leds).last_sent(),
            final(leds).synced(),
            final(self).stage@ == StageView::Settling,
            final(self).slot == old(self).slot,
            final(self).end == old(self).end,
            final(self).ignored == old(self).ignored,
            final(self).recorded == old(self).recorded,
    {
        leds.all_off();
        let slots = leds.raw_mut();
        slots[self.slot] = WALK_BYTE;
        self.stage = Stage::Settling;
    }

    /// How many milliseconds to wait for the next input; nothing once the window of a press is
    /// over. `elapsed_ms` is how long it has been open.
    pub fn wait_ms(&self, elapsed_ms: u64) -> (r: Option<i32>)
        ensures
            match self.stage@ {
                StageView::Collecting(down) => if down.len() > 0 {
                    if elapsed_ms >= PRESS_WINDOW_MS {
                        r is None
                    } else {
                        r is Some && r->0 == PRESS_WINDOW_MS - elapsed_ms
                    }
                } else {
                    r == Some(200i32)
                },
                _ => r == Some(QUIET_MS),
            },
    {
        match &self.stage {
            Stage::Collecting(p) => p.wait_ms(elapsed_ms),
            _ => Some(QUIET_MS),
        }
    }

    /// The line that says which slot is lit.
    pub fn headline(&self, p: &Profile) -> (r: String)
        ensures
            r@ == slot_text(self.slot, owner_of(p.controls(), self.slot)),
    {
        let mut s = "slot ".to_owned();
        push_dec_right(&mut s, self.slot as u64, 3);
        s.append(" is lit");
        if let Some(n) = owner(p, self.slot) {
            s.append("  [currently ");
            s.append(n.as_str());
            s.append("]");
        }
        assert(s@ =~= slot_text(self.slot, owner_of(p.controls(), self.slot)));
        s
    }

    /// Acts on a typed line; returns whether the walk goes on.
    pub fn on_line(&mut self, p: &Profile, line: &str, out: &mut Vec<Note>) -> (r: bool)
        requires
            old(self).slot < usize::MAX,
        ensures
            ({
                let c = walk_command_of(words(line@));
                &&& r == !(c is Finish)
                &&& final(self).slot == slot_after(old(self).slot, c)
                &&& final(self).end == old(self).end
                &&& final(self).ignored@ == walk_ignored(old(self).ignored@, c)
                &&& final(self).recorded@ == old(self).recorded@
                &&& final(self).stage@ == stage_after(c)
                &&& note_views(final(out)@) == note_views(old(out)@) + walk_notes(
                    c,
                    words(line@),
                    *p,
                )
            }),
    {
        let ghost before = note_views(out@);
        let w = split_words(line);
        let c = read_walk_command(&w);
        match c {
            WalkCommand::Next => {
                self.slot += 1;
            },
            WalkCommand::Finish => {},
            WalkCommand::Back => {
                if self.slot > 0 {
                    self.slot -= 1;
                }
            },
            WalkCommand::Jump(n) => {
                self.slot = n;
            },
            WalkCommand::BadJump => {
                push_note(out, complain("  ! usage: j <slot 0..102>".to_owned()));
            },
            WalkCommand::Ignore(n) => {
                if !has_number(&self.ignored, n) {
                    self.ignored.push(n);
                }
                let mut s = "  ignoring bit ".to_owned();
                push_dec(&mut s, n as u64);
                push_note(out, say(s));
            },
            WalkCommand::Unignore(n) => {
                remove_number(&mut self.ignored, n);
                let mut s = "  no longer ignoring bit ".to_owned();
                push_dec(&mut s, n as u64);
                push_note(out, say(s));
            },
            WalkCommand::Usage(ignore) => {
                let mut s = "  ! usage: ".to_owned();
                if ignore {
                    s.append("ignore");
                } else {
                    s.append("unignore");
                }
                s.append(" <bit>");
                push_note(out, complain(s));
            },
            WalkCommand::List => {
                push_note(out, say(unlit(p)));
            },
            WalkCommand::Unknown => {
                let mut s = PRESS_TEXT.to_owned();
                if w.len() > 0 {
                    assert(views(w@)[0] == w@[0]@);
                    s.append(w[0].as_str());
                }
                s.append("`)");
                push_note(out, complain(s));
            },
        }
        assert(note_views(out@) =~= before + walk_notes(c, words(line@), *p));
        match c {
            WalkCommand::Finish => {
                self.stage = Stage::Finished;
                false
            },
            _ => {
                self.stage = Stage::Lighting;
                true
            },
        }
    }

    /// Acts on what arrived while a press is waited for. Returns whether the clock of the press
    /// starts now, which it does with the first bit that goes down.
    pub fn on_input(&mut self, p: &Profile, input: Input, out: &mut Vec<Note>) -> (r: bool)
        requires
            old(self).slot < usize::MAX,
        ensures
            ({
                let t = walk_turn(
                    old(self).stage@,
                    old(self).slot,
                    old(self).ignored@,
                    *p,
                    input,
                );
                &&& final(self).stage@ == t.stage
                &&& final(self).slot == t.slot
                &&& final(self).ignored@ == t.ignored
                &&& final(self).end == old(self).end
                &&& final(self).recorded@ == old(self).recorded@
                &&& note_views(final(out)@) == note_views(old(out)@) + t.notes
                &&& r == (old(self).stage@.quiet() && t.stage.open())
            }),
    {
        let ghost before = note_views(out@);
        assert(before =~= before + Seq::<NoteView>::empty());
        if let Stage::Settling = &self.stage {
            let held = match &input {
                Input::Report(s) => live_bits(s, &self.ignored).len() > 0,
                _ => false,
            };
            if !held {
                self.stage = Stage::Collecting(Press::new());
                assert(self.stage@->Collecting_0 =~= Seq::empty());
            }
            return false;
        }
        let (collecting, quiet) = match &self.stage {
            Stage::Collecting(q) => (true, q.down.len() == 0),
            _ => (false, false),
        };
        if !collecting {
            return false;
        }
        match input {
            Input::Line(l) => {
                self.on_line(p, l.as_str(), out);
                false
            },
            Input::Timeout => {
                if !quiet {
                    self.close();
                }
                false
            },
            Input::Report(s) => {
                let mut more = Press { down: Vec::new() };
                if let Stage::Collecting(q) = &self.stage {
                    more.down = copy_numbers(&q.down);
                }
                more.report(&s, &self.ignored);
                let starts = quiet && more.down.len() > 0;
                self.stage = Stage::Collecting(more);
                starts
            },
        }
    }

    /// The window of a press is over: what went down is what was pressed. Where nothing did, the
    /// slot is lit again.
    pub fn close(&mut self)
        requires
            old(self).stage@ is Collecting,
        ensures
            final(self).stage@ == closed(old(self).stage@->Collecting_0),
            final(self).slot == old(self).slot,
            final(self).end == old(self).end,
            final(self).ignored == old(self).ignored,
            final(self).recorded == old(self).recorded,
    {
        let mut down: Vec<usize> = Vec::new();
        if let Stage::Collecting(q) = &self.stage {
            down = copy_numbers(&q.down);
        }
        self.stage = if down.len() == 0 {
            Stage::Lighting
        } else {
            Stage::Pressed(down)
        };
    }
}

/// Where a walk stands after a typed line.
pub open spec fn stage_after(c: WalkCommand) -> StageView {
    if c is Finish {
        StageView::Finished
    } else {
        StageView::Lighting
    }
}

/// Where a walk stands once the window of a press is over.
pub open spec fn closed(down: Seq<usize>) -> StageView {
    if down.len() == 0 {
        StageView::Lighting
    } else {
        StageView::Pressed(down)
    }
}

/// What a walk is about to do: where it stands, the slot, the ignored bits, and what it says.
pub struct WalkTurn {
    pub stage: StageView,
    pub slot: usize,
    pub ignored: Seq<usize>,
    pub notes: Seq<NoteView>,
}

/// What a walk does with what arrived. While something is still held it waits; whatever else comes
/// then, a typed line too, only ends the wait.
pub open spec fn walk_turn(
    stage: StageView,
    slot: usize,
    ignored: Seq<usize>,
    p: Profile,
    input: Input,
) -> WalkTurn {
    let still = WalkTurn { stage, slot, ignored, notes: Seq::empty() };
    match stage {
        StageView::Settling => match input {
            Input::Report(s) if live(s, ignored).len() > 0 => still,
            _ => WalkTurn { stage: StageView::Collecting(Seq::empty()), ..still },
        },
        StageView::Collecting(down) => match input {
            Input::Report(s) => {
                let more = live(s, ignored);
                WalkTurn {
                    stage: StageView::Collecting(gathered(down, more, more.len() as int)),
                    ..still
                }
            },
            Input::Line(l) => {
                let c = walk_command_of(words(l@));
                WalkTurn {
                    stage: stage_after(c),
                    slot: slot_after(slot, c),
                    ignored: walk_ignored(ignored, c),
                    notes: walk_notes(c, words(l@), p),
                }
            },
            Input::Timeout => if down.len() > 0 {
                WalkTurn { stage: closed(down), ..still }
            } else {
                still
            },
        },
        _ => still,
    }
}

/// A button that is held when a slot lights up does not answer for it: as long as reports show
/// something held, nothing is collected, and what is collected then starts with nothing.
pub proof fn law_held_buttons_do_not_answer(
    slot: usize,
    ignored: Seq<usize>,
    p: Profile,
    input: Input,
)
    ensures
        ({
            let t = walk_turn(StageView::Settling, slot, ignored, p, input);
            &&& t.stage is Settling || t.stage.quiet()
            &&& t.stage is Settling == (input matches Input::Report(s) && live(
                s,
                ignored,
            ).len() > 0)
            &&& t.slot == slot && t.ignored == ignored
        }),
{
}

/// A press that is collected is never lost: whatever arrives next but a typed line, every bit of it
/// is still there, and a silence ends it.
pub proof fn law_presses_are_not_lost(
    down: Seq<usize>,
    slot: usize,
    ignored: Seq<usize>,
    p: Profile,
    input: Input,
)
    requires
        ascends(down),
        down.len() > 0,
        !(input is Line),
    ensures
        match walk_turn(StageView::Collecting(down), slot, ignored, p, input).stage {
            StageView::Collecting(more) => {
                &&& input is Report
                &&& ascends(more)
                &&& forall|b: usize| #[trigger] down.contains(b) ==> more.contains(b)
            },
            StageView::Pressed(all) => input is Timeout && all == down,
            _ => false,
        },
{
    if let Input::Report(s) = input {
        let more = live(s, ignored);
        law_gathered_in_order(down, more, more.len() as int);
    }
}

// Presses.

/// Whether the bit is that of a button that has no slot yet.
pub open spec fn wants_slot(e: Seq<(String, Control)>, bit: usize) -> bool {
    let i = first_on_bit(e, bit, 0, e.len() as int);
    i < e.len() && e[i].1.led is None
}

/// The first of the bits from `i` on that is of a button without a slot.
pub open spec fn first_wanting(e: Seq<(String, Control)>, down: Seq<usize>, i: int) -> Option<usize>
    decreases down.len() - i,
{
    if i < 0 || i >= down.len() {
        None
    } else if wants_slot(e, down[i]) {
        Some(down[i])
    } else {
        first_wanting(e, down, i + 1)
    }
}

/// The bit that a press is about. With several bits in flight, one that has no LED slot yet is
/// preferred: the walk is for filling those in. The lowest index breaks a tie, which puts the
/// encoder's directions ahead of its touch sensor.
pub open spec fn bit_taken(e: Seq<(String, Control)>, down: Seq<usize>) -> usize {
    match first_wanting(e, down, 0) {
        Some(b) => b,
        None => down[0],
    }
}

/// A bit and what it is called.
pub open spec fn held_text(e: Seq<(String, Control)>, bit: usize) -> Seq<char> {
    dec(bit as nat) + " ("@ + (match name_on_bit(e, bit) {
        Some(n) => n,
        None => "unnamed"@,
    }) + ")"@
}

/// The bits that were pressed, each with what it is called.
pub open spec fn held_texts(e: Seq<(String, Control)>, down: Seq<usize>) -> Seq<Seq<char>> {
    down.map_values(|b: usize| held_text(e, b))
}

/// The controls with the slot of the named one set.
pub open spec fn with_led(
    e: Seq<(String, Control)>,
    name: Seq<char>,
    led: Option<usize>,
) -> Seq<(String, Control)> {
    let p = position(e, name) as int;
    if p < e.len() {
        e.update(p, (e[p].0, Control { led, ..e[p].1 }))
    } else {
        e
    }
}

/// The controls after the slot was given to the named button: whoever had it before loses it, since
/// a slot can only belong to one button.
pub open spec fn slot_given(
    e: Seq<(String, Control)>,
    slot: usize,
    name: Seq<char>,
) -> Seq<(String, Control)> {
    let freed = match owner_of(e, slot) {
        Some(o) if o != name => with_led(e, o, None),
        _ => e,
    };
    with_led(freed, name, Some(slot))
}

/// The slot that the named control has.
pub open spec fn led_named(e: Seq<(String, Control)>, name: Seq<char>) -> Option<usize> {
    match lookup(e, name) {
        Some(c) => c.led,
        None => None,
    }
}

/// What is said of a press.
pub open spec fn press_notes(
    e: Seq<(String, Control)>,
    slot: usize,
    down: Seq<usize>,
) -> Seq<NoteView> {
    let bit = bit_taken(e, down);
    let seen = if down.len() > 1 {
        seq![
            said(
                "  bits down: "@ + joined(held_texts(e, down), ", "@, down.len() as int)
                    + " -> taking "@ + dec(bit as nat),
            ),
        ]
    } else {
        Seq::empty()
    };
    match name_on_bit(e, bit) {
        None => seen.push(
            complained(
                "  ! bit "@ + dec(bit as nat)
                    + " has no name -- map it with `mk3-learn buttons`, then come back"@,
            ),
        ),
        Some(name) => {
            let taken = match owner_of(e, slot) {
                Some(o) if o != name => seen.push(
                    said("  (slot "@ + dec(slot as nat) + " taken from `"@ + o + "`)"@),
                ),
                _ => seen,
            };
            let freed = match owner_of(e, slot) {
                Some(o) if o != name => with_led(e, o, None),
                _ => e,
            };
            match led_named(freed, name) {
                Some(was) if was != slot => taken.push(
                    said("  (`"@ + name + "` moved from slot "@ + dec(was as nat) + ")"@),
                ),
                _ => taken,
            }
        },
    }
}

/// What a press does to the profile: the slot is given to the button that it is about, which is
/// what is returned. Where that bit has no name, nothing.
pub open spec fn given(
    slot: usize,
    down: Seq<usize>,
    before: Profile,
    after: Profile,
    r: Option<String>,
) -> bool {
    &&& after.device == before.device
    &&& after.report == before.report
    &&& after.layout == before.layout
    &&& before.control.wf() ==> after.control.wf()
    &&& maybe_view(r) == name_on_bit(before.controls(), bit_taken(before.controls(), down))
    &&& match r {
        Some(name) => after.controls() == slot_given(before.controls(), slot, name@),
        None => after == before,
    }
}

fn name_of(p: &Profile, bit: usize) -> (r: Option<String>)
    ensures
        maybe_view(r) == name_on_bit(p.controls(), bit),
{
    match p.button_at_bit(bit) {
        Some((n, _)) => Some(n.clone()),
        None => None,
    }
}

fn take_bit(p: &Profile, down: &Vec<usize>) -> (r: usize)
    requires
        down@.len() > 0,
    ensures
        r == bit_taken(p.controls(), down@),
{
    let ghost e = p.controls();
    let mut i: usize = 0;
    while i < down.len()
        invariant
            i <= down@.len(),
            e == p.controls(),
            first_wanting(e, down@, 0) == first_wanting(e, down@, i as int),
        decreases down@.len() - i,
    {
        if let Some((_, c)) = p.button_at_bit(down[i]) {
            if c.led.is_none() {
                return down[i];
            }
        }
        i += 1;
    }
    down[0]
}

fn push_seen(p: &Profile, down: &Vec<usize>, bit: usize, out: &mut Vec<Note>)
    ensures
        note_views(final(out)@) == note_views(old(out)@) + (if down@.len() > 1 {
            seq![
                said(
                    "  bits down: "@ + joined(
                        held_texts(p.controls(), down@),
                        ", "@,
                        down@.len() as int,
                    ) + " -> taking "@ + dec(bit as nat),
                ),
            ]
        } else {
            Seq::empty()
        }),
{
    let ghost e = p.controls();
    let ghost before = note_views(out@);
    if down.len() <= 1 {
        assert(before =~= before + Seq::<NoteView>::empty());
        return;
    }
    let mut texts: Vec<String> = Vec::new();
    let mut i: usize = 0;
    while i < down.len()
        invariant
            i <= down@.len(),
            e == p.controls(),
            views(texts@) =~= held_texts(e, down@.take(i as int)),
        decreases down@.len() - i,
    {
        let mut t = crate::text::decimal(down[i] as u64);
        t.append(" (");
        match name_of(p, down[i]) {
            Some(n) => {
                t.append(n.as_str());
            },
            None => {
                t.append("unnamed");
            },
        }
        t.append(")");
        assert(t@ =~= held_text(e, down@[i as int]));
        let ghost prior = texts@;
        texts.push(t);
        assert(views(texts@) =~= views(prior).push(t@));
        assert(held_texts(e, down@.take(i as int + 1)) =~= held_texts(
            e,
            down@.take(i as int),
        ).push(t@));
        i += 1;
    }
    assert(down@.take(down@.len() as int) =~= down@);
    let mut s = "  bits down: ".to_owned();
    push_joined(&mut s, &texts, ", ");
    assert(views(texts@).len() == texts@.len());
    s.append(" -> taking ");
    push_dec(&mut s, bit as u64);
    push_note(out, say(s));
    assert(note_views(out@) =~= before + seq![said(s@)]);
}

fn set_led(profile: &mut Profile, name: &str, led: Option<usize>)
    ensures
        final(profile).device == old(profile).device,
        final(profile).report == old(profile).report,
        final(profile).layout == old(profile).layout,
        final(profile).controls() == with_led(old(profile).controls(), name@, led),
        old(profile).control.wf() ==> final(profile).control.wf(),
{
    if let Some(c) = profile.control.get_mut(name) {
        c.led = led;
    }
}

impl Walk {
    /// Acts on a press: the slot that is lit is given to the button that was pressed. Returns its
    /// name, which has to be saved; nothing where the bit has no name, and then the slot is lit
    /// again.
    pub fn on_press(&mut self, profile: &mut Profile, out: &mut Vec<Note>) -> (r: Option<String>)
        requires
            old(self).stage@ matches StageView::Pressed(down) && down.len() > 0,
        ensures
            final(self).stage@ == (if r is Some {
                old(self).stage@
            } else {
                StageView::Lighting
            }),
            final(self).slot == old(self).slot,
            final(self).end == old(self).end,
            final(self).ignored == old(self).ignored,
            final(self).recorded == old(self).recorded,
            given(
                old(self).slot,
                old(self).stage@->Pressed_0,
                *old(profile),
                *final(profile),
                r,
            ),
            note_views(final(out)@) == note_views(old(out)@) + press_notes(
                old(profile).controls(),
                old(self).slot,
                old(self).stage@->Pressed_0,
            ),
    {
        let mut down: Vec<usize> = Vec::new();
        if let Stage::Pressed(d) = &self.stage {
            down = copy_numbers(d);
        }
        let r = self.give(profile, &down, out);
        if r.is_none() {
            self.stage = Stage::Lighting;
        }
        r
    }

    fn give(&self, profile: &mut Profile, down: &Vec<usize>, out: &mut Vec<Note>) -> (r: Option<
        String,
    >)
        requires
            down@.len() > 0,
        ensures
            given(self.slot, down@, *old(profile), *final(profile), r),
            note_views(final(out)@) == note_views(old(out)@) + press_notes(
                old(profile).controls(),
                self.slot,
                down@,
            ),
    {
        let ghost e = profile.controls();
        let ghost before = note_views(out@);
        let bit: usize = take_bit(profile, down);
        push_seen(profile, down, bit, out);
        let named = name_of(profile, bit);
        match named {
            None => {
                let mut s = "  ! bit ".to_owned();
                push_dec(&mut s, bit as u64);
                s.append(" has no name -- map it with `mk3-learn buttons`, then come back");
                push_note(out, complain(s));
                assert(note_views(out@) =~= before + press_notes(e, self.slot, down@));
                None
            },
            Some(name) => {
                if let Some(o) = owner(profile, self.slot) {
                    if !same(o.as_str(), name.as_str()) {
                        set_led(profile, o.as_str(), None);
                        let mut s = "  (slot ".to_owned();
                        push_dec(&mut s, self.slot as u64);
                        s.append(" taken from `");
                        s.append(o.as_str());
                        s.append("`)");
                        push_note(out, say(s));
                    }
                }
                let was: Option<usize> = match profile.get(name.as_str()) {
                    Some(c) => c.led,
                    None => None,
                };
                // A button has one slot, so whatever it had before is released.
                if let Some(previous) = was {
                    if previous != self.slot {
                        let mut s = "  (`".to_owned();
                        s.append(name.as_str());
                        s.append("` moved from slot ");
                        push_dec(&mut s, previous as u64);
                        s.append(")");
                        push_note(out, say(s));
                    }
                }
                set_led(profile, name.as_str(), Some(self.slot));
                assert(note_views(out@) =~= before + press_notes(e, self.slot, down@));
                Some(name)
            },
        }
    }

    /// Notes that the slot was recorded and saved, and goes on to the next.
    pub fn saved(&mut self, name: String) -> (r: String)
        requires
            old(self).slot < usize::MAX,
        ensures
            final(self).recorded@ == old(self).recorded@.push((old(self).slot, name)),
            final(self).slot == old(self).slot + 1,
            final(self).end == old(self).end,
            final(self).ignored@ == old(self).ignored@,
            final(self).stage@ == StageView::Lighting,
            r@ == "  ok: slot "@ + dec(old(self).slot as nat) + " = "@ + name@ + "  [saved]"@,
    {
        let mut s = "  ok: slot ".to_owned();
        push_dec(&mut s, self.slot as u64);
        s.append(" = ");
        s.append(name.as_str());
        s.append("  [saved]");
        self.recorded.push((self.slot, name));
        self.slot += 1;
        self.stage = Stage::Lighting;
        s
    }

    /// Goes on to the next slot without having saved this one.
    pub fn not_saved(&mut self)
        requires
            old(self).slot < usize::MAX,
        ensures
            final(self).slot == old(self).slot + 1,
            final(self).end == old(self).end,
            final(self).ignored@ == old(self).ignored@,
            final(self).recorded@ == old(self).recorded@,
            final(self).stage@ == StageView::Lighting,
    {
        self.slot += 1;
        self.stage = Stage::Lighting;
    }
}

/// How many buttons among the first `n` controls there are, and how many of them have a slot.
pub open spec fn lit_to(e: Seq<(String, Control)>, n: int) -> (nat, nat)
    decreases n,
{
    if n <= 0 {
        (0, 0)
    } else {
        let (all, lit) = lit_to(e, n - 1);
        if e[n - 1].1.kind is Button {
            (
                all + 1,
                if e[n - 1].1.led is Some {
                    lit + 1
                } else {
                    lit
                },
            )
        } else {
            (all, lit)
        }
    }
}

/// How many buttons have a slot, in words.
pub open spec fn lit_text(e: Seq<(String, Control)>) -> Seq<char> {
    let (all, lit) = lit_to(e, e.len() as int);
    dec(lit) + " of "@ + dec(all) + " buttons now have an LED slot."@
}

/// What is said at the end: what was recorded, if anything, and how many buttons have a slot.
pub open spec fn summary_of(recorded: Seq<(usize, String)>, p: Profile) -> Seq<NoteView> {
    (if recorded.len() == 0 {
        seq![said("\nNothing recorded this run."@)]
    } else {
        seq![said("\nRecorded "@ + dec(recorded.len()) + " slot(s) this run:"@)]
            + recorded.map_values(
            |r: (usize, String)|
                said("  slot "@ + flush_right(dec(r.0 as nat), 3) + "  "@ + r.1@),
        )
    }).push(said(lit_text(p.controls())))
}

impl Walk {
    /// What is said at the end. Skipping through a walk records nothing, and without a summary that
    /// is indistinguishable from the tool being broken.
    pub fn summary(&self, p: &Profile, out: &mut Vec<Note>)
        ensures
            note_views(final(out)@) == note_views(old(out)@) + summary_of(self.recorded@, *p),
    {
        let ghost before = note_views(out@);
        if self.recorded.len() == 0 {
            push_note(out, say("\nNothing recorded this run.".to_owned()));
            assert(note_views(out@) =~= before + seq![said("\nNothing recorded this run."@)]);
        } else {
            let mut s = "\nRecorded ".to_owned();
            push_dec(&mut s, self.recorded.len() as u64);
            s.append(" slot(s) this run:");
            push_note(out, say(s));
            let ghost start = note_views(out@);
            let ghost lines = self.recorded@.map_values(
                |r: (usize, String)|
                    said("  slot "@ + flush_right(dec(r.0 as nat), 3) + "  "@ + r.1@),
            );
            let mut i: usize = 0;
            while i < self.recorded.len()
                invariant
                    i <= self.recorded@.len(),
                    lines == self.recorded@.map_values(
                        |r: (usize, String)|
                            said("  slot "@ + flush_right(dec(r.0 as nat), 3) + "  "@ + r.1@),
                    ),
                    note_views(out@) =~= start + lines.take(i as int),
                decreases self.recorded@.len() - i,
            {
                let mut t = "  slot ".to_owned();
                push_dec_right(&mut t, self.recorded[i].0 as u64, 3);
                t.append("  ");
                t.append(self.recorded[i].1.as_str());
                push_note(out, say(t));
                assert(lines.take(i as int + 1) =~= lines.take(i as int).push(lines[i as int]));
                i += 1;
            }
            assert(lines.take(lines.len() as int) =~= lines);
        }
        let ghost mid = note_views(out@);
        let ghost e = p.controls();
        let mut all: usize = 0;
        let mut lit: usize = 0;
        let mut i: usize = 0;
        while i < p.control.len()
            invariant
                i <= e.len(),
                e == p.controls(),
                (all as nat, lit as nat) == lit_to(e, i as int),
                all <= i,
                lit <= all,
            decreases e.len() - i,
        {
            let c = p.control.value(i);
            if c.kind == ControlKind::Button {
                all += 1;
                if c.led.is_some() {
                    lit += 1;
                }
            }
            i += 1;
        }
        let mut s = crate::text::decimal(lit as u64);
        s.append(" of ");
        push_dec(&mut s, all as u64);
        s.append(" buttons now have an LED slot.");
        assert(s@ =~= lit_text(e));
        push_note(out, say(s));
        assert(note_views(out@) =~= before + summary_of(self.recorded@, *p));
    }
}

// What the walk keeps.

/// No two controls have the same slot.
pub open spec fn slots_distinct(e: Seq<(String, Control)>) -> bool {
    forall|i: int, j: int|
        0 <= i < j < e.len() && (#[trigger] e[i]).1.led is Some && (#[trigger] e[j]).1.led is Some
            ==> e[i].1.led != e[j].1.led
}

proof fn lemma_first_on_led_range(e: Seq<(String, Control)>, led: usize, i: int, n: int)
    requires
        i <= n,
    ensures
        i <= first_on_led(e, led, i, n) <= n,
        first_on_led(e, led, i, n) < n ==> e[first_on_led(e, led, i, n)].1.claims_led(led),
        forall|k: int|
            i <= k < first_on_led(e, led, i, n) ==> !(#[trigger] e[k]).1.claims_led(led),
    decreases n - i,
{
    if i < n && !e[i].1.claims_led(led) {
        lemma_first_on_led_range(e, led, i + 1, n);
    }
}

proof fn lemma_position_of_entry(e: Seq<(String, Control)>, i: int)
    requires
        crate::namemap::in_order(e),
        0 <= i < e.len(),
    ensures
        position(e, e[i].0@) == i,
{
    assert forall|k: int| 0 <= k < i implies (#[trigger] e[k]).0@ != e[i].0@ by {
        crate::text::lemma_before_strict(e[k].0@, e[i].0@);
    }
    crate::namemap::lemma_position_is(e, e[i].0@, i);
}

/// After a press the slot belongs to the button that was pressed, and if no two controls shared a
/// slot before, none do now.
pub proof fn law_slot_has_one_owner(e: Seq<(String, Control)>, slot: usize, name: Seq<char>)
    requires
        crate::namemap::in_order(e),
        slots_distinct(e),
        lookup(e, name) is Some,
    ensures
        led_named(slot_given(e, slot, name), name) == Some(slot),
        slots_distinct(slot_given(e, slot, name)),
{
    let n = e.len() as int;
    let at = first_on_led(e, slot, 0, n);
    lemma_first_on_led_range(e, slot, 0, n);
    crate::namemap::lemma_position(e, name);
    let p = position(e, name) as int;
    let o = owner_of(e, slot);
    let freed = match o {
        Some(x) if x != name => with_led(e, x, None),
        _ => e,
    };
    if at < n {
        lemma_position_of_entry(e, at);
    }
    assert(freed.len() == e.len());
    assert forall|k: int| 0 <= k < n implies (#[trigger] freed[k]).0 == e[k].0 by {}
    assert forall|k: int| 0 <= k < p implies (#[trigger] freed[k]).0@ != name by {
        assert(freed[k].0 == e[k].0);
        assert(e[k].0@ != name);
    }
    crate::namemap::lemma_position_is(freed, name, p);
    let after = with_led(freed, name, Some(slot));
    assert forall|k: int| 0 <= k < p implies (#[trigger] after[k]).0@ != name by {
        assert(after[k].0 == e[k].0);
        assert(e[k].0@ != name);
    }
    crate::namemap::lemma_position_is(after, name, p);
    // Nobody else has the slot.
    assert forall|k: int| 0 <= k < n && k != p implies !(#[trigger] after[k]).1.claims_led(slot) by {
        assert(after[k] == freed[k]);
        if freed[k].1.claims_led(slot) {
            if k != at {
                assert(e[k].1.claims_led(slot));
                if k < at {
                    assert(!e[k].1.claims_led(slot));
                } else {
                    assert(e[at].1.led != e[k].1.led);
                }
            } else {
                assert(o == Some(e[at].0@));
                assert(e[at].0@ == name);
                assert(position(e, name) == at);
            }
        }
    }
    assert forall|i: int, j: int|
        0 <= i < j < after.len() && (#[trigger] after[i]).1.led is Some
            && (#[trigger] after[j]).1.led is Some implies after[i].1.led != after[j].1.led by {
        if i == p {
            assert(!after[j].1.claims_led(slot));
        } else if j == p {
            assert(!after[i].1.claims_led(slot));
        } else {
            assert(after[i].1.led == e[i].1.led);
            assert(after[j].1.led == e[j].1.led);
            assert(e[i].1.led != e[j].1.led);
        }
    }
}

// What a typed line and a press do.

/// A typed line is told by its first word; nothing goes on to the next slot.
pub proof fn law_typed_lines_move_the_walk(n: nat)
    requires
        n <= usize::MAX,
    ensures
        walk_command_of(Seq::empty()) is Next,
        walk_command_of(seq!["skip"@]) is Next,
        walk_command_of(seq!["b"@]) is Back,
        walk_command_of(seq!["done"@]) is Finish,
        walk_command_of(seq!["q"@]) is Finish,
        walk_command_of(seq!["list"@]) is List,
        n < 103 ==> walk_command_of(seq!["j"@, dec(n)]) == WalkCommand::Jump(n as usize),
        n >= 103 ==> walk_command_of(seq!["j"@, dec(n)]) is BadJump,
        n < 80 ==> walk_command_of(seq!["ignore"@, dec(n)]) == WalkCommand::Ignore(n as usize),
        n < 80 ==> walk_command_of(seq!["unignore"@, dec(n)]) == WalkCommand::Unignore(n as usize),
        n >= 80 ==> walk_command_of(seq!["ignore"@, dec(n)]) == WalkCommand::Usage(true),
{
    crate::text::law_decimal_reads_back(n, usize::MAX as nat);
    reveal_strlit("skip");
    reveal_strlit("done");
    reveal_strlit("q");
    reveal_strlit("quit");
    reveal_strlit("b");
    reveal_strlit("j");
    reveal_strlit("ignore");
    reveal_strlit("unignore");
    reveal_strlit("list");
    assert("b"@.len() == 1 && "j"@.len() == 1 && "q"@.len() == 1 && "list"@.len() == 4 && "skip"@.len()
        == 4 && "done"@.len() == 4 && "quit"@.len() == 4);
    assert("ignore"@.len() == 6 && "unignore"@.len() == 8);
    assert("b"@[0] == 'b' && "j"@[0] == 'j' && "q"@[0] == 'q' && "list"@[0] == 'l' && "skip"@[0]
        == 's' && "done"@[0] == 'd' && "quit"@[0] == 'q');
}

/// A slot on and back again is the same slot, a jump goes where it says, and no other line moves the
/// walk. There is nothing before the first slot.
pub proof fn law_moves_go_where_they_say(slot: usize, n: usize, c: WalkCommand)
    requires
        slot < usize::MAX,
    ensures
        slot_after(slot, WalkCommand::Next) == slot + 1,
        slot_after(slot_after(slot, WalkCommand::Next), WalkCommand::Back) == slot,
        slot_after(0, WalkCommand::Back) == 0,
        slot_after(slot, WalkCommand::Jump(n)) == n,
        !(c is Next || c is Back || c is Jump) ==> slot_after(slot, c) == slot,
        stage_after(c) is Finished <==> c is Finish,
{
}

/// Ignoring a bit adds that one, and unignoring it takes that one away.
pub proof fn law_walks_ignore_what_they_are_told(ignored: Seq<usize>, n: usize, m: usize)
    ensures
        walk_ignored(ignored, WalkCommand::Ignore(n)).contains(m) <==> ignored.contains(m) || m == n,
        walk_ignored(ignored, WalkCommand::Unignore(n)).contains(m) <==> ignored.contains(m) && m
            != n,
{
    crate::learn::law_numbers_come_and_go(ignored, n, m);
    let all = ignored.push(n);
    assert(all.last() == n);
    if ignored.contains(m) {
        let k = ignored.index_of(m);
        assert(all[k] == m);
    }
    if all.contains(m) && m != n {
        let k = all.index_of(m);
        assert(ignored[k] == m);
    }
}

/// The bit that a press is about is one that was pressed, and that of a button without a slot
/// wherever there is such a one.
pub proof fn law_a_press_is_about_a_button_without_a_slot(
    e: Seq<(String, Control)>,
    down: Seq<usize>,
)
    requires
        down.len() > 0,
    ensures
        down.contains(bit_taken(e, down)),
        (exists|i: int| 0 <= i < down.len() && wants_slot(e, #[trigger] down[i])) ==> wants_slot(
            e,
            bit_taken(e, down),
        ),
{
    lemma_first_wanting(e, down, 0);
    assert(down.contains(down[0]));
}

proof fn lemma_first_wanting(e: Seq<(String, Control)>, down: Seq<usize>, i: int)
    requires
        0 <= i,
    ensures
        first_wanting(e, down, i) matches Some(b) ==> down.contains(b) && wants_slot(e, b),
        first_wanting(e, down, i) is None ==> forall|k: int|
            i <= k < down.len() ==> !wants_slot(e, #[trigger] down[k]),
    decreases down.len() - i,
{
    if i < down.len() {
        lemma_first_wanting(e, down, i + 1);
    }
}

/// A button wants a slot where it is the one on the bit and has none.
pub proof fn law_buttons_without_a_slot_want_one(e: Seq<(String, Control)>, bit: usize, i: int)
    requires
        0 <= i < e.len(),
        e[i].1.claims_bit(bit),
        forall|k: int| 0 <= k < i ==> !(#[trigger] e[k]).1.claims_bit(bit),
    ensures
        wants_slot(e, bit) <==> e[i].1.led is None,
        name_on_bit(e, bit) == Some(e[i].0@),
{
    lemma_first_bit_is(e, bit, 0, i);
}

proof fn lemma_first_bit_is(e: Seq<(String, Control)>, bit: usize, from: int, i: int)
    requires
        0 <= from <= i < e.len(),
        e[i].1.claims_bit(bit),
        forall|k: int| from <= k < i ==> !(#[trigger] e[k]).1.claims_bit(bit),
    ensures
        first_on_bit(e, bit, from, e.len() as int) == i,
    decreases i - from,
{
    if from < i {
        assert(!e[from].1.claims_bit(bit));
        lemma_first_bit_is(e, bit, from + 1, i);
    }
}

/// Giving a slot to a button changes the button's slot and that of whoever had it, and nothing else
/// of any control.
pub proof fn law_a_slot_is_taken_from_its_owner_only(
    e: Seq<(String, Control)>,
    slot: usize,
    name: Seq<char>,
    i: int,
)
    requires
        0 <= i < e.len(),
    ensures
        slot_given(e, slot, name).len() == e.len(),
        slot_given(e, slot, name)[i].0 == e[i].0,
        slot_given(e, slot, name)[i].1 == (Control {
            led: slot_given(e, slot, name)[i].1.led,
            ..e[i].1
        }),
        e[i].0@ != name && owner_of(e, slot) != Some(e[i].0@) ==> slot_given(e, slot, name)[i]
            == e[i],
{
    let o = owner_of(e, slot);
    let freed = match o {
        Some(x) if x != name => with_led(e, x, None),
        _ => e,
    };
    if let Some(x) = o {
        crate::namemap::lemma_position(e, x);
    }
    crate::namemap::lemma_position(freed, name);
}

/// Buttons are counted with a slot or without one, and those without are listed.
pub proof fn law_buttons_have_a_slot_or_are_listed(e: Seq<(String, Control)>, n: int)
    requires
        0 <= n <= e.len(),
    ensures
        lit_to(e, n).0 == lit_to(e, n).1 + unlit_to(e, n).len(),
        forall|i: int|
            0 <= i < n && (#[trigger] e[i]).1.kind is Button && e[i].1.led is None ==> unlit_to(
                e,
                n,
            ).contains(e[i].0@),
    decreases n,
{
    if n > 0 {
        law_buttons_have_a_slot_or_are_listed(e, n - 1);
        let rest = unlit_to(e, n - 1);
        let all = unlit_to(e, n);
        assert forall|i: int|
            0 <= i < n && (#[trigger] e[i]).1.kind is Button && e[i].1.led is None implies all.contains(
            e[i].0@,
        ) by {
            if i < n - 1 {
                assert(rest.contains(e[i].0@));
                let k = rest.index_of(e[i].0@);
                assert(all[k] == e[i].0@);
            } else {
                assert(all.last() == e[i].0@);
            }
        }
    }
}

/// Options and files are not taken for numbers, and everything else is kept in order.
pub proof fn law_numbers_are_what_is_left(args: Seq<Seq<char>>, a: Seq<char>)
    ensures
        positional(args.push("--"@ + a)) == positional(args),
        positional(args.push(a + ".toml"@)) == positional(args),
        !has_prefix(a, "--"@) && !has_suffix(a, ".toml"@) ==> positional(args.push(a)) == positional(
            args,
        ).push(a),
        file_arg(seq![a + ".toml"@] + args, 0) == Some(a + ".toml"@),
{
    crate::text::law_prefixes_and_pieces(a, "--"@, a);
    crate::text::law_prefixes_and_pieces(a, ".toml"@, a);
    assert(args.push("--"@ + a).drop_last() =~= args);
    assert(args.push(a + ".toml"@).drop_last() =~= args);
    assert(args.push(a).drop_last() =~= args);
}

/// A press gives the slot to the button that it is about: that button has the slot afterwards, and
/// it is the one that is named. A press of a bit without a name changes nothing.
pub proof fn law_a_press_gives_the_slot(
    slot: usize,
    down: Seq<usize>,
    before: Profile,
    after: Profile,
    r: Option<String>,
)
    requires
        given(slot, down, before, after, r),
        crate::namemap::in_order(before.controls()),
        slots_distinct(before.controls()),
    ensures
        r is None <==> name_on_bit(before.controls(), bit_taken(before.controls(), down)) is None,
        r matches Some(n) ==> name_on_bit(before.controls(), bit_taken(before.controls(), down))
            == Some(n@),
        r is None ==> after == before,
        after.controls().len() == before.controls().len(),
        r matches Some(n) ==> led_named(after.controls(), n@) == Some(slot),
{
    if let Some(n) = r {
        let e = before.controls();
        let at = first_on_bit(e, bit_taken(e, down), 0, e.len() as int);
        crate::profile::lemma_first_on_bit(e, bit_taken(e, down), 0, e.len() as int);
        lemma_position_of_entry(e, at);
        law_slot_has_one_owner(e, slot, n@);
    }
}

} // verus!
