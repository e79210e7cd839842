//! Finding which LED slots drive the 16 pads.
//!
//! The two banks are 62 and 41 slots, and 41 is exactly 25 touch-strip LEDs plus 16 pads, so the
//! pads start at either end of the second bank. Those two candidates are tried first; anything else
//! falls back to a binary search over the whole array, which needs about seven answers.
use crate::leds::{BANK0_LEN, LED_COUNT};
use crate::profile::{Layout, Profile, ProfileError};
use crate::text::{dec, eq_ignore_case, has_prefix, push_dec, same_but_case};
use vstd::prelude::*;

verus! {

/// Where a search stands: the question that is open, or how it ended.
#[derive(Debug, Clone, Copy, PartialEq, Eq, Structural)]
pub enum Search {
    /// Are these sixteen slots the pads? The start of the second bank first, then its end.
    Candidate(usize),
    /// Does any slot light a pad?
    AnyLit,
    /// Does a slot in the lower half of this range light a pad?
    Halving(usize, usize),
    /// Are the sixteen slots from here on the pads, and all of them?
    Confirm(usize),
    /// The pads start here.
    Found(usize),
    /// No slot lights a pad.
    NoPad,
    /// The slots from here on are not the pads.
    NotABlock(usize),
}

/// The last slot at which sixteen can start.
pub const LAST_BLOCK: usize = 87;

/// The middle of a range.
pub open spec fn middle(lo: int, hi: int) -> int {
    lo + (hi - lo) / 2
}

/// A range that is halved, or is down to one slot.
pub open spec fn halved(lo: usize, hi: usize) -> Search {
    if hi - lo > 1 {
        Search::Halving(lo, hi)
    } else {
        Search::Confirm(lo)
    }
}

impl Search {
    /// The ranges that are asked about lie within the slots.
    pub open spec fn wf(self) -> bool {
        match self {
            Search::Candidate(c) => c == BANK0_LEN || c == LAST_BLOCK,
            Search::Halving(lo, hi) => lo + 1 < hi <= LED_COUNT,
            Search::Confirm(b) => b < LED_COUNT,
            Search::Found(b) => b < LED_COUNT,
            Search::NotABlock(b) => b < LED_COUNT,
            _ => true,
        }
    }

    /// The slots to light for the question.
    pub open spec fn slots(self) -> (int, int) {
        match self {
            Search::Candidate(c) => (c as int, c + 16),
            Search::AnyLit => (0, LED_COUNT as int),
            Search::Halving(lo, hi) => (lo as int, middle(lo as int, hi as int)),
            Search::Confirm(b) => (
                b as int,
                if b + 16 < LED_COUNT {
                    b + 16
                } else {
                    LED_COUNT as int
                },
            ),
            _ => (0, 0),
        }
    }

    /// What follows an answer.
    pub open spec fn after(self, yes: bool) -> Search {
        match self {
            Search::Candidate(c) => if yes {
                Search::Confirm(c)
            } else if c == BANK0_LEN {
                Search::Candidate(LAST_BLOCK)
            } else {
                Search::AnyLit
            },
            Search::AnyLit => if yes {
                Search::Halving(0, LED_COUNT)
            } else {
                Search::NoPad
            },
            Search::Halving(lo, hi) => {
                let mid = middle(lo as int, hi as int) as usize;
                if yes {
                    halved(lo, mid)
                } else {
                    halved(mid, hi)
                }
            },
            Search::Confirm(b) => if yes {
                Search::Found(b)
            } else {
                Search::NotABlock(b)
            },
            _ => self,
        }
    }

    /// The question, where one is open.
    pub open spec fn asks(self) -> Option<Seq<char>> {
        match self {
            Search::Candidate(c) => Some(
                "slots "@ + dec(c as nat) + ".."@ + dec((c + 16) as nat)
                    + ": are all 16 pads lit? (y/n) "@,
            ),
            Search::AnyLit => Some("all slots lit: is any pad lit at all? (y/n) "@),
            Search::Halving(lo, hi) => Some(
                "slots "@ + dec(lo as nat) + ".."@ + dec(middle(lo as int, hi as int) as nat)
                    + ": is any pad lit? (y/n) "@,
            ),
            Search::Confirm(b) => Some(
                "\nslots "@ + dec(b as nat) + ".."@ + dec((b + 16) as nat)
                    + ": all 16 pads lit, and no pad left dark? (y/n) "@,
            ),
            _ => None,
        }
    }

    /// Begins with the first candidate.
    pub fn new() -> (r: Self)
        ensures
            r == Search::Candidate(BANK0_LEN),
            r.wf(),
    {
        Search::Candidate(BANK0_LEN)
    }

    /// The slots to light for the question: from the first up to the second.
    pub fn range(&self) -> (r: (usize, usize))
        requires
            self.wf(),
        ensures
            (r.0 as int, r.1 as int) == self.slots(),
            r.0 <= r.1 <= LED_COUNT,
    {
        match *self {
            Search::Candidate(c) => (c, c + 16),
            Search::AnyLit => (0, LED_COUNT),
            Search::Halving(lo, hi) => (lo, lo + (hi - lo) / 2),
            Search::Confirm(b) => {
                if b + 16 < LED_COUNT {
                    (b, b + 16)
                } else {
                    (b, LED_COUNT)
                }
            },
            _ => (0, 0),
        }
    }

    /// What follows an answer.
    pub fn answer(self, yes: bool) -> (r: Self)
        requires
            self.wf(),
        ensures
            r == self.after(yes),
            r.wf(),
    {
        match self {
            Search::Candidate(c) => {
                if yes {
                    Search::Confirm(c)
                } else if c == BANK0_LEN {
                    Search::Candidate(LAST_BLOCK)
                } else {
                    Search::AnyLit
                }
            },
            Search::AnyLit => {
                if yes {
                    Search::Halving(0, LED_COUNT)
                } else {
                    Search::NoPad
                }
            },
            Search::Halving(lo, hi) => {
                let mid: usize = lo + (hi - lo) / 2;
                let (a, b) = if yes {
                    (lo, mid)
                } else {
                    (mid, hi)
                };
                if b - a > 1 {
                    Search::Halving(a, b)
                } else {
                    Search::Confirm(a)
                }
            },
            Search::Confirm(b) => {
                if yes {
                    Search::Found(b)
                } else {
                    Search::NotABlock(b)
                }
            },
            other => other,
        }
    }

    /// The question, where one is open.
    pub fn question(&self) -> (r: Option<String>)
        requires
            self.wf(),
        ensures
            crate::config::maybe_view(r) == self.asks(),
    {
        match *self {
            Search::Candidate(c) => {
                let mut s = "slots ".to_owned();
                push_dec(&mut s, c as u64);
                s.append("..");
                push_dec(&mut s, c as u64 + 16);
                s.append(": are all 16 pads lit? (y/n) ");
                Some(s)
            },
            Search::AnyLit => Some("all slots lit: is any pad lit at all? (y/n) ".to_owned()),
            Search::Halving(lo, hi) => {
                let mut s = "slots ".to_owned();
                push_dec(&mut s, lo as u64);
                s.append("..");
                push_dec(&mut s, (lo + (hi - lo) / 2) as u64);
                s.append(": is any pad lit? (y/n) ");
                Some(s)
            },
            Search::Confirm(b) => {
                let mut s = "\nslots ".to_owned();
                push_dec(&mut s, b as u64);
                s.append("..");
                push_dec(&mut s, b as u64 + 16);
                s.append(": all 16 pads lit, and no pad left dark? (y/n) ");
                Some(s)
            },
            _ => None,
        }
    }

    /// Why the search failed, where it did.
    pub open spec fn fails(self) -> Option<Seq<char>> {
        match self {
            Search::NoPad => Some("no slot lights a pad -- is this really a Maschine MK3?"@),
            Search::NotABlock(b) => Some(
                "slots "@ + dec(b as nat) + ".."@ + dec((b + 16) as nat)
                    + " are not the pad block; run `mk3-learn leds "@ + dec(b as nat)
                    + "` to step through them one at a time"@,
            ),
            _ => None,
        }
    }

    /// Why the search failed, where it did.
    pub fn failure(&self) -> (r: Option<String>)
        requires
            self.wf(),
        ensures
            crate::config::maybe_view(r) == self.fails(),
    {
        match *self {
            Search::NoPad => Some(
                "no slot lights a pad -- is this really a Maschine MK3?".to_owned(),
            ),
            Search::NotABlock(b) => {
                let mut s = "slots ".to_owned();
                push_dec(&mut s, b as u64);
                s.append("..");
                push_dec(&mut s, b as u64 + 16);
                s.append(" are not the pad block; run `mk3-learn leds ");
                push_dec(&mut s, b as u64);
                s.append("` to step through them one at a time");
                Some(s)
            },
            _ => None,
        }
    }
}

/// Yes or no, where the answer is one of them.
pub open spec fn yes_or_no(line: Seq<char>) -> Option<bool> {
    if same_but_case(line, "y"@) || same_but_case(line, "yes"@) {
        Some(true)
    } else if same_but_case(line, "n"@) || same_but_case(line, "no"@) {
        Some(false)
    } else {
        None
    }
}

/// Yes or no, where the answer is one of them.
pub fn read_answer(line: &str) -> (r: Option<bool>)
    ensures
        r == yes_or_no(line@),
{
    if eq_ignore_case(line, "y") || eq_ignore_case(line, "yes") {
        Some(true)
    } else if eq_ignore_case(line, "n") || eq_ignore_case(line, "no") {
        Some(false)
    } else {
        None
    }
}

// What the halving finds.

/// Where the halving ends, if every answer is true and `first` is the lowest slot that lights a
/// pad.
pub open spec fn halving_ends(lo: usize, hi: usize, first: int) -> Search
    decreases hi - lo,
{
    if lo + 1 < hi {
        match Search::Halving(lo, hi).after(first < middle(lo as int, hi as int)) {
            Search::Halving(a, b) if b - a < hi - lo => halving_ends(a, b, first),
            other => other,
        }
    } else {
        Search::Confirm(lo)
    }
}

/// How many questions that takes.
pub open spec fn halving_questions(lo: usize, hi: usize, first: int) -> nat
    decreases hi - lo,
{
    if lo + 1 < hi {
        match Search::Halving(lo, hi).after(first < middle(lo as int, hi as int)) {
            Search::Halving(a, b) if b - a < hi - lo => 1 + halving_questions(a, b, first),
            _ => 1,
        }
    } else {
        0
    }
}

/// Truthful answers lead to the lowest slot that lights a pad.
pub proof fn law_halving_finds_the_first(lo: usize, hi: usize, first: int)
    requires
        lo <= first < hi,
    ensures
        halving_ends(lo, hi, first) == Search::Confirm(first as usize),
    decreases hi - lo,
{
    if lo + 1 < hi {
        let mid = middle(lo as int, hi as int);
        if first < mid {
            if mid - lo > 1 {
                law_halving_finds_the_first(lo, mid as usize, first);
            }
        } else if hi - mid > 1 {
            law_halving_finds_the_first(mid as usize, hi, first);
        }
    }
}

proof fn lemma_halving_is_short(lo: usize, hi: usize, first: int, k: nat)
    requires
        lo <= first < hi,
        hi - lo <= vstd::arithmetic::power2::pow2(k),
    ensures
        halving_questions(lo, hi, first) <= k,
    decreases k,
{
    vstd::arithmetic::power2::lemma2_to64();
    if lo + 1 < hi {
        let mid = middle(lo as int, hi as int);
        if k == 0 {
            assert(false);
        }
        vstd::arithmetic::power2::lemma_pow2_unfold(k);
        let h = vstd::arithmetic::power2::pow2((k - 1) as nat);
        assert(mid - lo <= h && hi - mid <= h);
        if first < mid {
            if mid - lo > 1 {
                lemma_halving_is_short(lo, mid as usize, first, (k - 1) as nat);
            }
        } else if hi - mid > 1 {
            lemma_halving_is_short(mid as usize, hi, first, (k - 1) as nat);
        }
    }
}

/// Over all the slots, seven answers are enough.
pub proof fn law_seven_answers_are_enough(first: int)
    requires
        0 <= first < LED_COUNT,
    ensures
        halving_questions(0, LED_COUNT, first) <= 7,
        halving_ends(0, LED_COUNT, first) == Search::Confirm(first as usize),
{
    vstd::arithmetic::power2::lemma2_to64();
    lemma_halving_is_short(0, LED_COUNT, first, 7);
    law_halving_finds_the_first(0, LED_COUNT, first);
}

// What is done with it.

/// What is said of the pad that the first slot lights, counted from the bottom left.
pub open spec fn order_text(base: usize, which: nat) -> Seq<char> {
    if which == 1 {
        "  ascending from the bottom-left, as the config assumes"@
    } else if which == 13 {
        "  NOTE: slot "@ + dec(base as nat) + TOP_DOWN_TEXT@
    } else if which == 0 {
        "  skipped"@
    } else {
        "  NOTE: slot "@ + dec(base as nat) + " is pad "@ + dec(which) + OTHER_ORDER_TEXT@
    }
}

/// What is said where the grid runs top-down.
pub const TOP_DOWN_TEXT: &'static str =
    " is the top-left pad, so the grid runs top-down.\nReorder pads.notes to match, or renumber as you prefer.";

/// What is said of any other order.
pub const OTHER_ORDER_TEXT: &'static str =
    ", so pad 0 in the config is that pad.\nAdjust pads.notes if the layout matters to you.";

/// The number that was typed, 0 where it was none.
pub open spec fn which_of(line: Seq<char>) -> nat {
    match crate::learn::read_usize(line) {
        Some(n) => n,
        None => 0,
    }
}

/// What is said of the pad that the first slot lights, by the number that was typed for it.
pub fn order_note(base: usize, line: &str) -> (r: String)
    ensures
        r@ == order_text(base, which_of(line@)),
{
    let which: usize = match crate::learn::parse_usize(line) {
        Some(n) => n,
        None => 0,
    };
    match which {
        1 => "  ascending from the bottom-left, as the config assumes".to_owned(),
        13 => {
            let mut s = "  NOTE: slot ".to_owned();
            push_dec(&mut s, base as u64);
            s.append(TOP_DOWN_TEXT);
            s
        },
        0 => "  skipped".to_owned(),
        n => {
            let mut s = "  NOTE: slot ".to_owned();
            push_dec(&mut s, base as u64);
            s.append(" is pad ");
            push_dec(&mut s, n as u64);
            s.append(OTHER_ORDER_TEXT);
            s
        },
    }
}

/// Records where the pads start. Returns whether the profile changed; a profile that would then be
/// refused is not to be saved.
pub fn set_base(profile: &mut Profile, base: usize) -> (r: Result<bool, ProfileError>)
    requires
        old(profile).report.slots() <= usize::MAX,
    ensures
        *final(profile) == (Profile {
            layout: Layout { pad_led_base: base, ..old(profile).layout },
            ..*old(profile)
        }),
        match r {
            Ok(changed) => changed == (old(profile).layout.pad_led_base != base) && (changed
                ==> final(profile).valid()),
            Err(e) => old(profile).layout.pad_led_base != base && final(profile).fault()
                == Some(e@),
        },
{
    if profile.layout.pad_led_base == base {
        return Ok(false);
    }
    profile.layout.pad_led_base = base;
    match profile.validate() {
        Ok(()) => Ok(true),
        Err(e) => Err(e),
    }
}

// What the search promises.

/// The pads are found only where the sixteen slots that were lit last are confirmed to be theirs, and
/// a candidate that is refused is never found without being asked about again.
pub proof fn law_pads_are_found_where_confirmed(s: Search, yes: bool, b: usize)
    ensures
        s.after(yes) == Search::Found(b) && !(s is Found) ==> yes && s == Search::Confirm(b),
        s.after(yes) == Search::Confirm(b) && s is Candidate ==> yes && s == Search::Candidate(b),
        s.after(yes) is NoPad && !(s is NoPad) ==> !yes && s is AnyLit,
        s.after(yes) is NotABlock && !(s is NotABlock) ==> !yes && s is Confirm,
        Search::Candidate(b).slots() == (b as int, b + 16),
        Search::AnyLit.slots() == (0int, 103int),
{
}

/// A range is halved by lighting its lower half: a yes keeps that half, a no the other, and neither
/// is ever empty.
pub proof fn law_an_answer_keeps_the_right_half(lo: usize, hi: usize, yes: bool)
    requires
        lo + 1 < hi <= LED_COUNT,
    ensures
        ({
            let s = Search::Halving(lo, hi);
            let (a, b) = s.slots();
            let (from, to) = if yes {
                (a, b)
            } else {
                (b, hi as int)
            };
            &&& a == lo && lo < b < hi
            &&& -1 <= (b - lo) - (hi - b) <= 0
            &&& if to - from > 1 {
                s.after(yes) == Search::Halving(from as usize, to as usize)
            } else {
                s.after(yes) == Search::Confirm(from as usize)
            }
        }),
{
}

/// A question names the slots that are lit for it.
pub proof fn law_a_question_names_its_slots(s: Search)
    requires
        s.wf(),
        s is Candidate || s is Halving,
    ensures
        s.asks() matches Some(t) && has_prefix(
            t,
            "slots "@ + dec(s.slots().0 as nat) + ".."@ + dec(s.slots().1 as nat),
        ),
{
    let p = "slots "@ + dec(s.slots().0 as nat) + ".."@ + dec(s.slots().1 as nat);
    let q = if s is Candidate {
        ": are all 16 pads lit? (y/n) "@
    } else {
        ": is any pad lit? (y/n) "@
    };
    crate::text::law_prefixes_and_pieces(Seq::empty(), p, q);
}

/// An answer is a word for yes or for no, or its first letter, in any case.
pub proof fn law_answers_are_yes_or_no()
    ensures
        yes_or_no("y"@) == Some(true) && yes_or_no("Y"@) == Some(true),
        yes_or_no("yes"@) == Some(true) && yes_or_no("YES"@) == Some(true),
        yes_or_no("n"@) == Some(false) && yes_or_no("N"@) == Some(false),
        yes_or_no("no"@) == Some(false) && yes_or_no("NO"@) == Some(false),
        yes_or_no(Seq::empty()) is None,
        forall|line: Seq<char>| line.len() > 3 ==> #[trigger] yes_or_no(line) is None,
{
    reveal_strlit("y");
    reveal_strlit("Y");
    reveal_strlit("yes");
    reveal_strlit("YES");
    reveal_strlit("n");
    reveal_strlit("N");
    reveal_strlit("no");
    reveal_strlit("NO");
    assert(crate::text::ascii_lower("n"@[0]) != crate::text::ascii_lower("y"@[0]));
    assert(crate::text::ascii_lower("N"@[0]) != crate::text::ascii_lower("y"@[0]));
}

} // verus!
