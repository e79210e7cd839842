//! Printing every HID event as it arrives.
use crate::hid::{
    hits_from, nibble_delta, parse_pads, short_way, ControlState, PadEvent, PadHit, ANALOGS,
    BUTTON_BITS, CONTROL_LEN, KNOBS,
};
use crate::text::{
    blanks, bytes_to, dec, dec_int, flush_right, has_prefix, has_suffix, hex,
    law_prefixes_and_pieces, occurs, push_bytes, push_dec, push_dec_int, push_dec_right, push_hex,
    views,
};
use vstd::prelude::*;

verus! {

/// The lines of the buttons below `n` that changed.
pub open spec fn button_lines(p: ControlState, s: ControlState, n: int) -> Seq<Seq<char>>
    decreases n,
{
    if n <= 0 {
        Seq::empty()
    } else {
        let rest = button_lines(p, s, n - 1);
        if s.held(n - 1) != p.held(n - 1) {
            rest.push(
                "button bit "@ + flush_right(dec((n - 1) as nat), 2) + "  "@ + (if s.held(n - 1) {
                    "down"@
                } else {
                    "up"@
                }),
            )
        } else {
            rest
        }
    }
}

/// A movement with its sign.
pub open spec fn signed(d: int) -> Seq<char> {
    if d >= 0 {
        "+"@ + dec(d as nat)
    } else {
        dec_int(d)
    }
}

/// The lines of the encoder's two counters, where they changed.
pub open spec fn encoder_lines(p: ControlState, s: ControlState) -> Seq<Seq<char>> {
    let low = if s.encoder_lo != p.encoder_lo {
        seq![
            "encoder      "@ + dec(p.encoder_lo as nat) + " -> "@ + dec(s.encoder_lo as nat)
                + "  ("@ + signed(short_way(p.encoder_lo as int, s.encoder_lo as int, 16)) + ")"@,
        ]
    } else {
        Seq::empty()
    };
    if s.encoder_hi != p.encoder_hi {
        low.push(
            "encoder-hi   "@ + dec(p.encoder_hi as nat) + " -> "@ + dec(s.encoder_hi as nat),
        )
    } else {
        low
    }
}

/// The lines of the first `n` knobs, where they changed.
pub open spec fn knob_lines(p: ControlState, s: ControlState, n: int) -> Seq<Seq<char>>
    decreases n,
{
    if n <= 0 {
        Seq::empty()
    } else {
        let rest = knob_lines(p, s, n - 1);
        if s.knobs@[n - 1] != p.knobs@[n - 1] {
            rest.push(
                "knob "@ + dec((n - 1) as nat) + "       "@ + flush_right(
                    dec(p.knobs@[n - 1] as nat),
                    4,
                ) + " -> "@ + flush_right(dec(s.knobs@[n - 1] as nat), 4),
            )
        } else {
            rest
        }
    }
}

/// What is known of an analog field.
pub open spec fn analog_note(i: int) -> Seq<char> {
    if i == 0 {
        "  (free-running counter, not a control)"@
    } else if i == 1 {
        "  (touch strip)"@
    } else {
        ""@
    }
}

/// The lines of the first `n` analog fields, where they changed.
pub open spec fn analog_lines(p: ControlState, s: ControlState, n: int) -> Seq<Seq<char>>
    decreases n,
{
    if n <= 0 {
        Seq::empty()
    } else {
        let rest = analog_lines(p, s, n - 1);
        if s.analog@[n - 1] != p.analog@[n - 1] {
            rest.push(
                "analog "@ + dec((n - 1) as nat) + "     "@ + flush_right(
                    dec(p.analog@[n - 1] as nat),
                    5,
                ) + " -> "@ + flush_right(dec(s.analog@[n - 1] as nat), 5) + analog_note(n - 1),
            )
        } else {
            rest
        }
    }
}

/// The lines of everything that changed between two reports.
pub open spec fn change_lines(p: ControlState, s: ControlState) -> Seq<Seq<char>> {
    button_lines(p, s, BUTTON_BITS as int) + encoder_lines(p, s) + knob_lines(p, s, KNOBS as int)
        + analog_lines(p, s, ANALOGS as int)
}

fn push_line(out: &mut Vec<String>, s: String)
    ensures
        views(final(out)@) == views(old(out)@).push(s@),
{
    out.push(s);
    assert(views(out@) =~= views(old(out)@).push(s@));
}

/// Appends the lines of everything that changed between two reports.
pub fn changes(p: &ControlState, s: &ControlState, out: &mut Vec<String>)
    ensures
        views(final(out)@) == views(old(out)@) + change_lines(*p, *s),
{
    let ghost start = views(out@);
    let mut bit: usize = 0;
    while bit < BUTTON_BITS
        invariant
            bit <= BUTTON_BITS,
            views(out@) =~= start + button_lines(*p, *s, bit as int),
        decreases BUTTON_BITS - bit,
    {
        let down = s.button(bit);
        if down != p.button(bit) {
            let mut t = "button bit ".to_owned();
            push_dec_right(&mut t, bit as u64, 2);
            t.append("  ");
            if down {
                t.append("down");
            } else {
                t.append("up");
            }
            push_line(out, t);
        }
        bit += 1;
    }
    let ghost mid = views(out@);
    if s.encoder_lo != p.encoder_lo {
        let d: i8 = nibble_delta(p.encoder_lo, s.encoder_lo);
        let mut t = "encoder      ".to_owned();
        push_dec(&mut t, p.encoder_lo as u64);
        t.append(" -> ");
        push_dec(&mut t, s.encoder_lo as u64);
        t.append("  (");
        if d >= 0 {
            t.append("+");
        }
        push_dec_int(&mut t, d as i64);
        t.append(")");
        assert(t@ =~= "encoder      "@ + dec(p.encoder_lo as nat) + " -> "@ + dec(
            s.encoder_lo as nat,
        ) + "  ("@ + signed(short_way(p.encoder_lo as int, s.encoder_lo as int, 16)) + ")"@);
        push_line(out, t);
    }
    if s.encoder_hi != p.encoder_hi {
        let mut t = "encoder-hi   ".to_owned();
        push_dec(&mut t, p.encoder_hi as u64);
        t.append(" -> ");
        push_dec(&mut t, s.encoder_hi as u64);
        push_line(out, t);
    }
    assert(views(out@) =~= mid + encoder_lines(*p, *s));
    let ghost after = views(out@);
    let mut i: usize = 0;
    while i < KNOBS
        invariant
            i <= KNOBS,
            views(out@) =~= after + knob_lines(*p, *s, i as int),
        decreases KNOBS - i,
    {
        if s.knobs[i] != p.knobs[i] {
            let mut t = "knob ".to_owned();
            push_dec(&mut t, i as u64);
            t.append("       ");
            push_dec_right(&mut t, p.knobs[i] as u64, 4);
            t.append(" -> ");
            push_dec_right(&mut t, s.knobs[i] as u64, 4);
            push_line(out, t);
        }
        i += 1;
    }
    let ghost last = views(out@);
    let mut i: usize = 0;
    while i < ANALOGS
        invariant
            i <= ANALOGS,
            views(out@) =~= last + analog_lines(*p, *s, i as int),
        decreases ANALOGS - i,
    {
        if s.analog[i] != p.analog[i] {
            let mut t = "analog ".to_owned();
            push_dec(&mut t, i as u64);
            t.append("     ");
            push_dec_right(&mut t, p.analog[i] as u64, 5);
            t.append(" -> ");
            push_dec_right(&mut t, s.analog[i] as u64, 5);
            if i == 0 {
                t.append("  (free-running counter, not a control)");
            } else if i == 1 {
                t.append("  (touch strip)");
            } else {
                t.append("");
            }
            push_line(out, t);
        }
        i += 1;
    }
    assert(views(out@) =~= start + change_lines(*p, *s));
}

/// Nothing is printed of a report that repeats the one before.
pub proof fn law_no_change_no_line(s: ControlState)
    ensures
        change_lines(s, s) == Seq::<Seq<char>>::empty(),
{
    lemma_no_lines(s, BUTTON_BITS as int);
    lemma_no_lines(s, KNOBS as int);
    lemma_no_lines(s, ANALOGS as int);
    assert(change_lines(s, s) =~= Seq::<Seq<char>>::empty());
}

proof fn lemma_no_lines(s: ControlState, n: int)
    ensures
        button_lines(s, s, n) == Seq::<Seq<char>>::empty(),
        knob_lines(s, s, n) == Seq::<Seq<char>>::empty(),
        analog_lines(s, s, n) == Seq::<Seq<char>>::empty(),
    decreases n,
{
    if n > 0 {
        lemma_no_lines(s, n - 1);
    }
}

/// The first `n` numbers with commas between them.
pub open spec fn values_to(v: Seq<u16>, n: int) -> Seq<char>
    decreases n,
{
    if n <= 0 {
        Seq::empty()
    } else if n == 1 {
        dec(v[0] as nat)
    } else {
        values_to(v, n - 1) + ", "@ + dec(v[n - 1] as nat)
    }
}

/// The line of the first report.
pub open spec fn baseline_text(s: ControlState) -> Seq<char> {
    "baseline: buttons=["@ + bytes_to(s.buttons@, ", "@, 10) + "] knobs=["@ + values_to(
        s.knobs@,
        KNOBS as int,
    ) + "]"@
}

/// The line of the first report.
pub fn baseline(s: &ControlState) -> (r: String)
    ensures
        r@ == baseline_text(*s),
{
    let mut t = "baseline: buttons=[".to_owned();
    let bytes: &[u8] = s.buttons.as_slice();
    push_bytes(&mut t, bytes, ", ");
    t.append("] knobs=[");
    let ghost start = t@;
    let mut i: usize = 0;
    while i < KNOBS
        invariant
            i <= KNOBS,
            t@ =~= start + values_to(s.knobs@, i as int),
        decreases KNOBS - i,
    {
        if i > 0 {
            t.append(", ");
        }
        push_dec(&mut t, s.knobs[i] as u64);
        i += 1;
    }
    t.append("]");
    assert(t@ =~= baseline_text(*s));
    t
}

/// The name of a pad event.
pub open spec fn event_name(e: PadEvent) -> Seq<char> {
    match e {
        PadEvent::PressOn => "PressOn"@,
        PadEvent::NoteOn => "NoteOn"@,
        PadEvent::PressOff => "PressOff"@,
        PadEvent::NoteOff => "NoteOff"@,
        PadEvent::Aftertouch => "Aftertouch"@,
    }
}

/// The line of a pad event.
pub open spec fn hit_text(h: PadHit) -> Seq<char> {
    "pad "@ + flush_right(dec(h.pad as nat), 2) + "       "@ + event_name(h.event) + " @ "@ + dec(
        h.value as nat,
    )
}

/// The line of a pad event.
pub fn hit_line(h: &PadHit) -> (r: String)
    ensures
        r@ == hit_text(*h),
{
    let mut t = "pad ".to_owned();
    push_dec_right(&mut t, h.pad as u64, 2);
    t.append("       ");
    match h.event {
        PadEvent::PressOn => {
            t.append("PressOn");
        },
        PadEvent::NoteOn => {
            t.append("NoteOn");
        },
        PadEvent::PressOff => {
            t.append("PressOff");
        },
        PadEvent::NoteOff => {
            t.append("NoteOff");
        },
        PadEvent::Aftertouch => {
            t.append("Aftertouch");
        },
    }
    t.append(" @ ");
    push_dec(&mut t, h.value as u64);
    assert(t@ =~= hit_text(*h));
    t
}

/// The line of a report that is neither of the controls nor of the pads.
pub open spec fn other_text(r: Seq<u8>) -> Seq<char> {
    "report 0x"@ + hex(r[0] as nat, 2) + ": ["@ + bytes_to(r.skip(1), ", "@, r.len() - 1) + "]"@
}

/// A session of watching.
pub struct Watcher {
    /// Whether a changed report of the controls is dumped in full.
    pub raw: bool,
    /// The report of the controls before.
    pub prev: Option<ControlState>,
    /// The bytes of the report that was dumped last.
    pub prev_raw: Vec<u8>,
}

/// The lines of pad events.
pub open spec fn hit_lines(hits: Seq<PadHit>) -> Seq<Seq<char>> {
    hits.map_values(|h: PadHit| hit_text(h))
}

/// The dump of a changed report, where dumps are asked for.
pub open spec fn dump_lines(raw: bool, prev_raw: Seq<u8>, r: Seq<u8>) -> Seq<Seq<char>> {
    if raw && r != prev_raw {
        seq!["raw 0x01     "@ + bytes_to(r.skip(1), " "@, r.len() - 1)]
    } else {
        Seq::empty()
    }
}

fn rest_of(r: &[u8]) -> (p: Vec<u8>)
    requires
        r@.len() > 0,
    ensures
        p@ == r@.skip(1),
{
    let mut p: Vec<u8> = Vec::new();
    let mut i: usize = 1;
    while i < r.len()
        invariant
            1 <= i <= r@.len(),
            p@ =~= r@.subrange(1, i as int),
        decreases r@.len() - i,
    {
        p.push(r[i]);
        i += 1;
    }
    assert(p@ =~= r@.skip(1));
    p
}

fn same_bytes(a: &[u8], b: &Vec<u8>) -> (r: bool)
    ensures
        r == (a@ == b@),
{
    if a.len() != b.len() {
        return false;
    }
    let mut i: usize = 0;
    while i < a.len()
        invariant
            i <= a@.len(),
            a@.len() == b@.len(),
            forall|k: int| 0 <= k < i ==> #[trigger] a@[k] == b@[k],
        decreases a@.len() - i,
    {
        if a[i] != b[i] {
            assert(a@[i as int] != b@[i as int]);
            return false;
        }
        i += 1;
    }
    assert(a@ =~= b@);
    true
}

impl Watcher {
    pub fn new(raw: bool) -> (r: Self)
        ensures
            r.raw == raw,
            r.prev is None,
            r.prev_raw@.len() == 0,
    {
        Watcher { raw, prev: None, prev_raw: Vec::new() }
    }

    /// The lines of a report, with its id in front.
    pub fn on_report(&mut self, r: &[u8], out: &mut Vec<String>)
        ensures
            final(self).raw == old(self).raw,
            r@.len() == 0 ==> *final(self) == *old(self) && final(out)@ == old(out)@,
            r@.len() > 0 && r@[0] == 0x01 ==> {
                let dump = views(old(out)@) + dump_lines(old(self).raw, old(self).prev_raw@, r@);
                &&& final(self).prev_raw@ == (if old(self).raw {
                    r@
                } else {
                    old(self).prev_raw@
                })
                &&& if r@.len() - 1 >= CONTROL_LEN {
                    &&& final(self).prev is Some
                    &&& final(self).prev->0.reads(r@.skip(1))
                    &&& views(final(out)@) == dump + (match old(self).prev {
                        Some(p) => change_lines(p, final(self).prev->0),
                        None => seq![baseline_text(final(self).prev->0)],
                    })
                } else {
                    final(self).prev == old(self).prev && views(final(out)@) == dump
                }
            },
            r@.len() > 0 && r@[0] == 0x02 ==> {
                &&& *final(self) == *old(self)
                &&& views(final(out)@) == views(old(out)@) + hit_lines(hits_from(r@.skip(1), 0))
            },
            r@.len() > 0 && r@[0] != 0x01 && r@[0] != 0x02 ==> {
                &&& *final(self) == *old(self)
                &&& views(final(out)@) == views(old(out)@).push(other_text(r@))
            },
    {
        if r.len() == 0 {
            return;
        }
        let p = rest_of(r);
        if r[0] == 0x01 {
            let ghost start = views(out@);
            if self.raw {
                if !same_bytes(r, &self.prev_raw) {
                    let mut t = "raw 0x01     ".to_owned();
                    push_bytes(&mut t, &p, " ");
                    push_line(out, t);
                    self.prev_raw = whole(r);
                }
            }
            assert(views(out@) =~= start + dump_lines(old(self).raw, old(self).prev_raw@, r@));
            match ControlState::parse(&p) {
                None => {},
                Some(s) => {
                    match self.prev {
                        Some(before) => {
                            changes(&before, &s, out);
                        },
                        None => {
                            let t = baseline(&s);
                            let ghost mid = views(out@);
                            push_line(out, t);
                            assert(views(out@) =~= mid + seq![baseline_text(s)]);
                        },
                    }
                    self.prev = Some(s);
                },
            }
        } else if r[0] == 0x02 {
            let ghost start = views(out@);
            let mut hits: Vec<PadHit> = Vec::new();
            parse_pads(&p, &mut hits);
            let mut i: usize = 0;
            assert(hit_lines(hits@.take(0)) =~= Seq::empty());
            while i < hits.len()
                invariant
                    i <= hits@.len(),
                    views(out@) =~= start + hit_lines(hits@.take(i as int)),
                decreases hits@.len() - i,
            {
                let t = hit_line(&hits[i]);
                push_line(out, t);
                assert(hit_lines(hits@.take(i as int + 1)) =~= hit_lines(hits@.take(i as int)).push(
                    hit_text(hits@[i as int]),
                ));
                i += 1;
            }
            assert(hits@.take(hits@.len() as int) =~= hits@);
        } else {
            let mut t = "report 0x".to_owned();
            push_hex(&mut t, r[0] as u64, 2);
            t.append(": [");
            push_bytes(&mut t, &p, ", ");
            t.append("]");
            assert(t@ =~= other_text(r@));
            push_line(out, t);
        }
    }
}

fn whole(r: &[u8]) -> (p: Vec<u8>)
    ensures
        p@ == r@,
{
    let mut p: Vec<u8> = Vec::new();
    let mut i: usize = 0;
    while i < r.len()
        invariant
            i <= r@.len(),
            p@ =~= r@.take(i as int),
        decreases r@.len() - i,
    {
        p.push(r[i]);
        i += 1;
    }
    assert(p@ =~= r@);
    p
}

// What the lines say.

/// A button that changed has a line, which names its bit and ends in where it is now; one that did
/// not has none.
pub proof fn law_changed_buttons_have_a_line(p: ControlState, s: ControlState, n: int)
    requires
        0 <= n < BUTTON_BITS,
    ensures
        ({
            let all = button_lines(p, s, n + 1);
            let rest = button_lines(p, s, n);
            if s.held(n) == p.held(n) {
                all == rest
            } else {
                &&& all.len() == rest.len() + 1
                &&& all.drop_last() == rest
                &&& occurs(all.last(), dec(n as nat))
                &&& s.held(n) ==> has_suffix(all.last(), "down"@)
                &&& !s.held(n) ==> has_suffix(all.last(), "up"@)
            }
        }),
{
    let all = button_lines(p, s, n + 1);
    let rest = button_lines(p, s, n);
    if s.held(n) != p.held(n) {
        assert(all.drop_last() =~= rest);
        let d = dec(n as nat);
        let w = if s.held(n) {
            "down"@
        } else {
            "up"@
        };
        let b = blanks(2 - d.len());
        let l = all.last();
        law_prefixes_and_pieces("button bit "@ + b, d, "  "@ + w);
        assert(l =~= ("button bit "@ + b) + d + ("  "@ + w));
        law_prefixes_and_pieces("button bit "@ + flush_right(d, 2) + "  "@, w, Seq::empty());
    }
}

/// A knob that changed has a line, which names the knob, where it was, and last where it is now.
pub proof fn law_changed_knobs_have_a_line(p: ControlState, s: ControlState, n: int)
    requires
        0 <= n < KNOBS,
    ensures
        ({
            let all = knob_lines(p, s, n + 1);
            let rest = knob_lines(p, s, n);
            if s.knobs@[n] == p.knobs@[n] {
                all == rest
            } else {
                &&& all.len() == rest.len() + 1
                &&& all.drop_last() == rest
                &&& has_prefix(all.last(), "knob "@ + dec(n as nat))
                &&& occurs(all.last(), dec(p.knobs@[n] as nat))
                &&& has_suffix(all.last(), dec(s.knobs@[n] as nat))
            }
        }),
{
    let all = knob_lines(p, s, n + 1);
    let rest = knob_lines(p, s, n);
    if s.knobs@[n] != p.knobs@[n] {
        assert(all.drop_last() =~= rest);
        let (k, a, b) = (dec(n as nat), dec(p.knobs@[n] as nat), dec(s.knobs@[n] as nat));
        let (x, y) = (blanks(4 - a.len()), blanks(4 - b.len()));
        let l = all.last();
        let head = "knob "@ + k;
        let (gap, to) = ("       "@, " -> "@);
        assert(has_prefix(l, head)) by {
            let tail = gap + flush_right(a, 4) + to + flush_right(b, 4);
            law_prefixes_and_pieces(Seq::empty(), head, tail);
            assert(l =~= head + tail);
        }
        assert(occurs(l, a)) by {
            law_prefixes_and_pieces(head + gap + x, a, to + flush_right(b, 4));
            assert(l =~= (head + gap + x) + a + (to + flush_right(b, 4)));
        }
        assert(has_suffix(l, b)) by {
            let front = head + gap + flush_right(a, 4) + to + y;
            law_prefixes_and_pieces(front, b, Seq::empty());
            assert(l =~= front + b);
        }
    }
}

/// The line of a pad event names the pad and the event, and ends in the value.
pub proof fn law_a_pad_event_is_shown_in_full(h: PadHit)
    ensures
        occurs(hit_text(h), dec(h.pad as nat)),
        has_suffix(hit_text(h), dec(h.value as nat)),
        h.event is NoteOn ==> occurs(hit_text(h), "NoteOn"@),
        h.event is NoteOff ==> occurs(hit_text(h), "NoteOff"@),
        h.event is PressOn ==> occurs(hit_text(h), "PressOn"@),
        h.event is PressOff ==> occurs(hit_text(h), "PressOff"@),
        h.event is Aftertouch ==> occurs(hit_text(h), "Aftertouch"@),
{
    let l = hit_text(h);
    let (p, v, e) = (dec(h.pad as nat), dec(h.value as nat), event_name(h.event));
    let b = blanks(2 - p.len());
    let (gap, at) = ("       "@, " @ "@);
    assert(occurs(l, p)) by {
        law_prefixes_and_pieces("pad "@ + b, p, gap + e + at + v);
        assert(l =~= ("pad "@ + b) + p + (gap + e + at + v));
    }
    assert(occurs(l, e)) by {
        law_prefixes_and_pieces("pad "@ + flush_right(p, 2) + gap, e, at + v);
        assert(l =~= ("pad "@ + flush_right(p, 2) + gap) + e + (at + v));
    }
    assert(has_suffix(l, v)) by {
        law_prefixes_and_pieces("pad "@ + flush_right(p, 2) + gap + e + at, v, Seq::empty());
    }
}

/// A movement is shown with its sign.
pub proof fn law_movements_are_signed(d: int)
    ensures
        d > 0 ==> signed(d) == seq!['+'] + dec(d as nat),
        d < 0 ==> signed(d) == seq!['-'] + dec((-d) as nat),
{
    reveal_strlit("+");
    assert("+"@ =~= seq!['+']);
}

} // verus!
