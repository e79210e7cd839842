//! Hardware discovery for the Maschine MK3.
//!
//! The HID report descriptor tells us there are 80 button bits and 103 LED slots, but not which
//! physical control sits at which index: that is only discoverable by pressing things and watching
//! what lights up. Here is what the learn tool does with what was pressed, typed and answered; the
//! device and the terminal are read elsewhere.
pub mod buttons;
pub mod colours;
pub mod pads;
pub mod probe;
pub mod walk;
pub mod watch;

use crate::hid::{ControlState, BUTTON_BITS};
use crate::text::{chars_of, parse_uint, read_uint};
use vstd::prelude::*;

verus! {

/// A line to print: on the standard output, or, for a complaint, on the standard error.
#[derive(Debug)]
pub struct Note {
    pub complaint: bool,
    pub text: String,
}

/// What a [`Note`] says.
pub struct NoteView {
    pub complaint: bool,
    pub text: Seq<char>,
}

impl View for Note {
    type V = NoteView;

    open spec fn view(&self) -> NoteView {
        NoteView { complaint: self.complaint, text: self.text@ }
    }
}

pub open spec fn said(text: Seq<char>) -> NoteView {
    NoteView { complaint: false, text }
}

pub open spec fn complained(text: Seq<char>) -> NoteView {
    NoteView { complaint: true, text }
}

pub fn say(text: String) -> (r: Note)
    ensures
        r@ == said(text@),
{
    Note { complaint: false, text }
}

pub fn complain(text: String) -> (r: Note)
    ensures
        r@ == complained(text@),
{
    Note { complaint: true, text }
}

/// Milliseconds to keep collecting after the first bit goes down.
///
/// The encoder's touch sensor leads its direction bits by a few milliseconds; this has to outlast
/// that gap without being long enough to merge two deliberate presses.
pub const PRESS_WINDOW_MS: u64 = 350;

/// Those of the bits below `n` that are held and not ignored.
pub open spec fn live_to(s: ControlState, ignored: Seq<usize>, n: int) -> Seq<usize>
    decreases n,
{
    if n <= 0 {
        Seq::empty()
    } else {
        let rest = live_to(s, ignored, n - 1);
        if s.held(n - 1) && !ignored.contains((n - 1) as usize) {
            rest.push((n - 1) as usize)
        } else {
            rest
        }
    }
}

/// The bits that are held, minus any that are ignored.
pub open spec fn live(s: ControlState, ignored: Seq<usize>) -> Seq<usize> {
    live_to(s, ignored, BUTTON_BITS as int)
}

pub fn has_number(v: &Vec<usize>, n: usize) -> (r: bool)
    ensures
        r == v@.contains(n),
{
    let mut i: usize = 0;
    while i < v.len()
        invariant
            i <= v@.len(),
            forall|k: int| 0 <= k < i ==> #[trigger] v@[k] != n,
        decreases v@.len() - i,
    {
        if v[i] == n {
            assert(v@[i as int] == n);
            return true;
        }
        i += 1;
    }
    false
}

/// Button bits currently held, minus any the user asked to ignore.
pub fn live_bits(s: &ControlState, ignored: &Vec<usize>) -> (r: Vec<usize>)
    ensures
        r@ == live(*s, ignored@),
{
    let mut out: Vec<usize> = Vec::new();
    let mut b: usize = 0;
    while b < BUTTON_BITS
        invariant
            b <= BUTTON_BITS,
            out@ == live_to(*s, ignored@, b as int),
        decreases BUTTON_BITS - b,
    {
        if s.button(b) && !has_number(ignored, b) {
            out.push(b);
        }
        b += 1;
    }
    out
}

/// Nothing that is ignored and nothing that is not held counts as pressed, and everything else
/// does.
pub proof fn law_live_bits(s: ControlState, ignored: Seq<usize>, n: int, bit: usize)
    requires
        0 <= n <= BUTTON_BITS,
    ensures
        live_to(s, ignored, n).contains(bit) <==> bit < n && s.held(bit as int)
            && !ignored.contains(bit),
    decreases n,
{
    if n > 0 {
        law_live_bits(s, ignored, n - 1, bit);
        let rest = live_to(s, ignored, n - 1);
        let all = live_to(s, ignored, n);
        if s.held(n - 1) && !ignored.contains((n - 1) as usize) {
            assert(all.last() == (n - 1) as usize);
            if rest.contains(bit) {
                let k = rest.index_of(bit);
                assert(all[k] == bit);
            }
            if all.contains(bit) && bit != n - 1 {
                let k = all.index_of(bit);
                assert(rest[k] == bit);
            }
        }
    }
}

/// `v` with `n` at its place, where all before it are smaller; `v` itself where it holds `n`.
pub open spec fn with_number(v: Seq<usize>, n: usize) -> Seq<usize> {
    if v.contains(n) {
        v
    } else {
        v.insert(number_slot(v, n) as int, n)
    }
}

/// How many numbers at the front are smaller than `n`.
pub open spec fn number_slot(v: Seq<usize>, n: usize) -> nat
    decreases v.len(),
{
    if v.len() == 0 || v[0] >= n {
        0
    } else {
        1 + number_slot(v.skip(1), n)
    }
}

/// Puts `n` at its place, unless it is there.
pub fn insert_number(v: &mut Vec<usize>, n: usize)
    ensures
        final(v)@ == with_number(old(v)@, n),
{
    if has_number(v, n) {
        return;
    }
    let mut p: usize = 0;
    assert(v@.skip(0) =~= v@);
    while p < v.len() && v[p] < n
        invariant
            p <= v@.len(),
            v@ == old(v)@,
            number_slot(v@, n) == p + number_slot(v@.skip(p as int), n),
        decreases v@.len() - p,
    {
        assert(v@.skip(p as int)[0] == v@[p as int]);
        assert(v@.skip(p as int).skip(1) =~= v@.skip(p as int + 1));
        p += 1;
    }
    proof {
        if p < v@.len() {
            assert(v@.skip(p as int)[0] == v@[p as int]);
        }
    }
    v.insert(p, n);
}

/// `v` without `n`.
pub open spec fn without_number(v: Seq<usize>, n: usize) -> Seq<usize>
    decreases v.len(),
{
    if v.len() == 0 {
        Seq::empty()
    } else {
        let rest = without_number(v.drop_last(), n);
        if v.last() == n {
            rest
        } else {
            rest.push(v.last())
        }
    }
}

/// Takes `n` out of the list.
pub fn remove_number(v: &mut Vec<usize>, n: usize)
    ensures
        final(v)@ == without_number(old(v)@, n),
{
    let mut out: Vec<usize> = Vec::new();
    let mut i: usize = 0;
    assert(v@.take(0) =~= Seq::empty());
    while i < v.len()
        invariant
            i <= v@.len(),
            v@ == old(v)@,
            out@ == without_number(v@.take(i as int), n),
        decreases v@.len() - i,
    {
        assert(v@.take(i as int + 1).drop_last() =~= v@.take(i as int));
        if v[i] != n {
            out.push(v[i]);
        }
        i += 1;
    }
    assert(v@.take(v@.len() as int) =~= v@);
    *v = out;
}

/// The bits of `more` put at their places among `v`, the first `n` of them.
pub open spec fn gathered(v: Seq<usize>, more: Seq<usize>, n: int) -> Seq<usize>
    decreases n,
{
    if n <= 0 {
        v
    } else {
        with_number(gathered(v, more, n - 1), more[n - 1])
    }
}

/// What was pressed while one press was waited for.
///
/// Activity is accumulated over a short window rather than read from one report: the 4-D encoder
/// reports its touch sensor a few milliseconds before the direction being tilted, so the first
/// report would only ever show the touch.
#[derive(Debug)]
pub struct Press {
    /// The bits that went down, in order.
    pub down: Vec<usize>,
}

impl Press {
    /// Nothing pressed yet.
    pub fn new() -> (r: Self)
        ensures
            r.down@.len() == 0,
    {
        Press { down: Vec::new() }
    }

    /// Whether the window is open: something went down.
    pub open spec fn open(self) -> bool {
        self.down@.len() > 0
    }

    /// Adds what a report shows to be held.
    pub fn report(&mut self, s: &ControlState, ignored: &Vec<usize>)
        ensures
            final(self).down@ == gathered(
                old(self).down@,
                live(*s, ignored@),
                live(*s, ignored@).len() as int,
            ),
    {
        let bits = live_bits(s, ignored);
        let mut i: usize = 0;
        while i < bits.len()
            invariant
                i <= bits@.len(),
                bits@ == live(*s, ignored@),
                self.down@ == gathered(old(self).down@, bits@, i as int),
            decreases bits@.len() - i,
        {
            insert_number(&mut self.down, bits[i]);
            i += 1;
        }
    }

    /// How many milliseconds to wait for the next report, given how long the window has been open;
    /// nothing once it is over.
    pub fn wait_ms(&self, elapsed_ms: u64) -> (r: Option<i32>)
        ensures
            match r {
                None => self.open() && elapsed_ms >= PRESS_WINDOW_MS,
                Some(t) => if self.open() {
                    elapsed_ms < PRESS_WINDOW_MS && t == PRESS_WINDOW_MS - elapsed_ms
                } else {
                    t == 200
                },
            },
    {
        if self.down.len() == 0 {
            return Some(200);
        }
        if elapsed_ms >= PRESS_WINDOW_MS {
            return None;
        }
        Some((PRESS_WINDOW_MS - elapsed_ms) as i32)
    }
}

/// What is gathered keeps its order: no bit twice, and each before the greater ones.
pub open spec fn ascends(v: Seq<usize>) -> bool {
    forall|i: int, j: int| 0 <= i < j < v.len() ==> #[trigger] v[i] < #[trigger] v[j]
}

proof fn lemma_number_slot(v: Seq<usize>, n: usize)
    ensures
        number_slot(v, n) <= v.len(),
        number_slot(v, n) < v.len() ==> v[number_slot(v, n) as int] >= n,
        forall|i: int| 0 <= i < number_slot(v, n) ==> #[trigger] v[i] < n,
    decreases v.len(),
{
    if v.len() > 0 && v[0] < n {
        lemma_number_slot(v.skip(1), n);
        assert forall|i: int| 0 <= i < number_slot(v, n) implies #[trigger] v[i] < n by {
            if i > 0 {
                assert(v.skip(1)[i - 1] == v[i]);
            }
        }
    }
}

proof fn lemma_with_number_ascends(v: Seq<usize>, n: usize)
    requires
        ascends(v),
    ensures
        ascends(with_number(v, n)),
        with_number(v, n).contains(n),
        forall|m: usize| #[trigger] v.contains(m) ==> with_number(v, n).contains(m),
{
    if !v.contains(n) {
        lemma_number_slot(v, n);
        let p = number_slot(v, n) as int;
        let w = with_number(v, n);
        assert(w[p] == n);
        assert forall|i: int, j: int| 0 <= i < j < w.len() implies #[trigger] w[i] < #[trigger] w[j] by {
            let oi = if i < p {
                i
            } else {
                i - 1
            };
            let oj = if j < p {
                j
            } else {
                j - 1
            };
            if i != p {
                assert(w[i] == v[oi]);
            }
            if j != p {
                assert(w[j] == v[oj]);
            }
            if i == p {
                assert(v[p] != n);
                if oj > p {
                    assert(v[p] < v[oj]);
                }
            } else if j == p {
                assert(v[oi] < n);
            } else {
                assert(v[oi] < v[oj]);
            }
        }
        assert forall|m: usize| #[trigger] v.contains(m) implies w.contains(m) by {
            let k = v.index_of(m);
            if k < p {
                assert(w[k] == m);
            } else {
                assert(w[k + 1] == m);
            }
        }
    }
}

/// However the reports come, what was pressed is gathered in order, each bit once, and nothing
/// that was pressed is lost.
pub proof fn law_gathered_in_order(v: Seq<usize>, more: Seq<usize>, n: int)
    requires
        ascends(v),
        0 <= n <= more.len(),
    ensures
        ascends(gathered(v, more, n)),
        forall|m: usize| #[trigger] v.contains(m) ==> gathered(v, more, n).contains(m),
        forall|k: int| 0 <= k < n ==> gathered(v, more, n).contains(#[trigger] more[k]),
    decreases n,
{
    if n > 0 {
        law_gathered_in_order(v, more, n - 1);
        lemma_with_number_ascends(gathered(v, more, n - 1), more[n - 1]);
    }
}

/// The number that a word is, of those that a `usize` holds.
pub open spec fn read_usize(w: Seq<char>) -> Option<nat> {
    read_uint(w, usize::MAX as nat)
}

/// The number that a word is.
pub fn parse_usize(w: &str) -> (r: Option<usize>)
    ensures
        match r {
            Some(n) => read_usize(w@) == Some(n as nat),
            None => read_usize(w@) is None,
        },
{
    let cs = chars_of(w);
    match parse_uint(&cs, usize::MAX as u64) {
        Some(n) => Some(n as usize),
        None => None,
    }
}

/// Putting a number in adds that one and nothing else, and taking it out removes that one and nothing
/// else.
pub proof fn law_numbers_come_and_go(v: Seq<usize>, n: usize, m: usize)
    ensures
        with_number(v, n).contains(m) <==> v.contains(m) || m == n,
        without_number(v, n).contains(m) <==> v.contains(m) && m != n,
{
    lemma_without_number(v, n, m);
    if !v.contains(n) {
        lemma_number_slot(v, n);
        let p = number_slot(v, n) as int;
        let w = v.insert(p, n);
        assert(w[p] == n);
        if v.contains(m) {
            let k = v.index_of(m);
            assert(v[k] == m);
            if k < p {
                assert(w[k] == m);
            } else {
                assert(w[k + 1] == m);
            }
        }
        if w.contains(m) && m != n {
            let k = w.index_of(m);
            if k < p {
                assert(v[k] == m);
            } else {
                assert(v[k - 1] == m);
            }
        }
    }
}

proof fn lemma_without_number(v: Seq<usize>, n: usize, m: usize)
    ensures
        without_number(v, n).contains(m) <==> v.contains(m) && m != n,
    decreases v.len(),
{
    if v.len() > 0 {
        let d = v.drop_last();
        lemma_without_number(d, n, m);
        let rest = without_number(d, n);
        let all = without_number(v, n);
        if d.contains(m) {
            let k = d.index_of(m);
            assert(v[k] == m);
        }
        if v.contains(m) && v.last() != m {
            let k = v.index_of(m);
            assert(d[k] == m);
        }
        if v.last() == m {
            assert(v[v.len() - 1] == m);
        }
        if v.last() != n {
            if rest.contains(m) {
                let k = rest.index_of(m);
                assert(all[k] == m);
            }
            assert(all[rest.len() as int] == v.last());
            if all.contains(m) && !rest.contains(m) {
                let k = all.index_of(m);
                assert(k == rest.len());
            }
        }
    }
}

/// Nothing is gathered that was not pressed.
pub proof fn law_only_presses_are_gathered(v: Seq<usize>, more: Seq<usize>, n: int, m: usize)
    requires
        0 <= n <= more.len(),
        gathered(v, more, n).contains(m),
    ensures
        v.contains(m) || more.contains(m),
    decreases n,
{
    if n > 0 {
        law_numbers_come_and_go(gathered(v, more, n - 1), more[n - 1], m);
        if m != more[n - 1] {
            law_only_presses_are_gathered(v, more, n - 1, m);
        }
    }
}

} // verus!
