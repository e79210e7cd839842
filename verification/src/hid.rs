//! Decoding the MK3's HID input reports.
//!
//! The layouts below come straight from the device's own report descriptor
//! (`/sys/class/hidraw/hidrawN/device/report_descriptor`):
//!
//! Report `0x01`, 41 payload bytes:
//!
//! | offset | size | contents                              |
//! |--------|------|---------------------------------------|
//! | 0      | 10   | 80 button bits                        |
//! | 10     | 1    | two 4-bit counters (encoder)          |
//! | 11     | 16   | 8 knobs, u16 LE, logical range 0..999 |
//! | 27     | 14   | 7 analog fields, u16 LE               |
//!
//! The descriptor's ranges for the last seven do not match what the hardware sends, so they are
//! read as one block and the profile says which field is what.
//!
//! Report `0x02`, 63 payload bytes: 21 pad event triplets, terminated early by an all-zero
//! triplet.
use vstd::arithmetic::div_mod::{lemma_small_mod, lemma_sub_mod_noop};
use vstd::prelude::*;

verus! {

/// Number of velocity-sensitive pads.
pub const PADS: usize = 16;

/// Number of continuous knobs under the displays.
pub const KNOBS: usize = 8;

/// Number of button bits the device reports.
pub const BUTTON_BITS: usize = 80;

/// Number of analog fields following the knobs.
///
/// | index | offset | observed | what |
/// |---|---|---|---|
/// | 0 | 27 | climbs ~16 per report, never resets | a free-running counter, not a control |
/// | 1 | 29 | 0..1024, returns to 0 on release | **the touch strip** |
/// | 2 | 31 | idle | unknown |
/// | 3 | 33 | idle | unknown |
/// | 4-6 | 35-39 | idle | the pedal jack |
///
/// Index 0 must not be used as a control source: it would emit a CC on every report forever.
pub const ANALOGS: usize = 7;

/// Analog field carrying the touch strip.
pub const STRIP_ANALOG: usize = 1;

/// Full-scale value the touch strip reports.
pub const STRIP_MAX: u16 = 1024;

/// Full logical value of a knob; the device reports 0..=999.
pub const KNOB_MAX: u16 = 999;

/// Full logical value of a pad hit; the device reports a 12-bit value.
pub const PAD_MAX: u16 = 4095;

/// Payload bytes of report `0x01`.
pub const CONTROL_LEN: usize = 41;

/// What a pad event triplet describes.
#[derive(Debug, Clone, Copy, PartialEq, Eq, Structural)]
pub enum PadEvent {
    /// Finger down without a strike (the pad is being leaned on).
    PressOn,
    /// A struck note, value is strike velocity.
    NoteOn,
    /// Finger lifted after a press.
    PressOff,
    /// Note released.
    NoteOff,
    /// Continuous pressure while held.
    Aftertouch,
}

impl PadEvent {
    /// The event that the upper four bits of a triplet's second byte stand for.
    pub open spec fn of_nibble(n: u8) -> Option<PadEvent> {
        if n == 0x00 {
            Some(PadEvent::PressOn)
        } else if n == 0x10 {
            Some(PadEvent::NoteOn)
        } else if n == 0x20 {
            Some(PadEvent::PressOff)
        } else if n == 0x30 {
            Some(PadEvent::NoteOff)
        } else if n == 0x40 {
            Some(PadEvent::Aftertouch)
        } else {
            None
        }
    }

    fn from_nibble(n: u8) -> (r: Option<Self>)
        ensures
            r == PadEvent::of_nibble(n),
    {
        match n {
            0x00 => Some(PadEvent::PressOn),
            0x10 => Some(PadEvent::NoteOn),
            0x20 => Some(PadEvent::PressOff),
            0x30 => Some(PadEvent::NoteOff),
            0x40 => Some(PadEvent::Aftertouch),
            _ => None,
        }
    }

    pub open spec fn starts(self) -> bool {
        self is NoteOn || self is PressOn
    }

    pub open spec fn ends(self) -> bool {
        self is NoteOff || self is PressOff
    }

    /// Whether this event starts a note.
    pub fn is_on(self) -> (r: bool)
        ensures
            r == self.starts(),
    {
        match self {
            PadEvent::NoteOn | PadEvent::PressOn => true,
            _ => false,
        }
    }

    /// Whether this event ends a note.
    pub fn is_off(self) -> (r: bool)
        ensures
            r == self.ends(),
    {
        match self {
            PadEvent::NoteOff | PadEvent::PressOff => true,
            _ => false,
        }
    }
}

/// A decoded snapshot of report `0x01`.
#[derive(Debug, Clone, Copy, PartialEq, Eq)]
pub struct ControlState {
    /// 80 button bits, LSB of byte 0 is bit 0.
    pub buttons: [u8; 10],
    /// Low nibble of the encoder byte: the main stepped encoder, wraps 0..15.
    pub encoder_lo: u8,
    /// High nibble of the encoder byte.
    pub encoder_hi: u8,
    /// Knob positions, 0..=999.
    pub knobs: [u16; KNOBS],
    /// The seven analog fields following the knobs. See [`ANALOGS`].
    pub analog: [u16; ANALOGS],
}

impl Default for ControlState {
    fn default() -> (r: Self)
        ensures
            r.at_rest(),
    {
        ControlState {
            buttons: [0; 10],
            encoder_lo: 0,
            encoder_hi: 0,
            knobs: [0; KNOBS],
            analog: [0; ANALOGS],
        }
    }
}

/// The 16-bit value whose low byte comes first.
pub open spec fn le16(lo: u8, hi: u8) -> u16 {
    (lo + 256 * hi) as u16
}

fn u16le(p: &[u8], o: usize) -> (r: u16)
    requires
        o + 1 < p@.len(),
    ensures
        r == le16(p@[o as int], p@[o + 1]),
{
    p[o] as u16 + 256 * (p[o + 1] as u16)
}

impl ControlState {
    /// Nothing held and every field zero.
    pub open spec fn at_rest(self) -> bool {
        &&& forall|i: int| 0 <= i < 10 ==> #[trigger] self.buttons@[i] == 0
        &&& self.encoder_lo == 0
        &&& self.encoder_hi == 0
        &&& forall|i: int| 0 <= i < KNOBS ==> #[trigger] self.knobs@[i] == 0
        &&& forall|i: int| 0 <= i < ANALOGS ==> #[trigger] self.analog@[i] == 0
    }

    /// Whether button `bit` is held.
    pub open spec fn held(self, bit: int) -> bool {
        0 <= bit < BUTTON_BITS && self.buttons@[bit / 8] & (1u8 << ((bit % 8) as u8)) != 0
    }

    /// The snapshot that the first 41 bytes of `p` hold.
    pub open spec fn reads(self, p: Seq<u8>) -> bool {
        &&& self.buttons@ == p.take(10)
        &&& self.encoder_lo == p[10] % 16
        &&& self.encoder_hi == p[10] / 16
        &&& forall|i: int|
            0 <= i < KNOBS ==> #[trigger] self.knobs@[i] == le16(p[11 + 2 * i], p[12 + 2 * i])
        &&& forall|i: int|
            0 <= i < ANALOGS ==> #[trigger] self.analog@[i] == le16(p[27 + 2 * i], p[28 + 2 * i])
    }

    /// Whether button `bit` (0..80) is currently held.
    pub fn button(&self, bit: usize) -> (r: bool)
        ensures
            r == self.held(bit as int),
    {
        bit < BUTTON_BITS && self.buttons[bit / 8] & (1u8 << ((bit % 8) as u8)) != 0
    }

    /// Parse report `0x01`'s payload (everything after the report id).
    pub fn parse(p: &[u8]) -> (r: Option<Self>)
        ensures
            r is Some <==> p@.len() >= CONTROL_LEN,
            r is Some ==> r->0.reads(p@),
    {
        if p.len() < CONTROL_LEN {
            return None;
        }
        let mut s = ControlState::default();
        let mut i: usize = 0;
        while i < 10
            invariant
                i <= 10,
                p@.len() >= CONTROL_LEN,
                forall|k: int| 0 <= k < i ==> #[trigger] s.buttons@[k] == p@[k],
            decreases 10 - i,
        {
            s.buttons[i] = p[i];
            i += 1;
        }
        s.encoder_lo = p[10] % 16;
        s.encoder_hi = p[10] / 16;
        let mut i: usize = 0;
        while i < KNOBS
            invariant
                i <= KNOBS,
                p@.len() >= CONTROL_LEN,
                forall|k: int| 0 <= k < 10 ==> #[trigger] s.buttons@[k] == p@[k],
                s.encoder_lo == p@[10] % 16,
                s.encoder_hi == p@[10] / 16,
                forall|k: int|
                    0 <= k < i ==> #[trigger] s.knobs@[k] == le16(p@[11 + 2 * k], p@[12 + 2 * k]),
            decreases KNOBS - i,
        {
            s.knobs[i] = u16le(p, 11 + 2 * i);
            i += 1;
        }
        let mut i: usize = 0;
        while i < ANALOGS
            invariant
                i <= ANALOGS,
                p@.len() >= CONTROL_LEN,
                forall|k: int| 0 <= k < 10 ==> #[trigger] s.buttons@[k] == p@[k],
                s.encoder_lo == p@[10] % 16,
                s.encoder_hi == p@[10] / 16,
                forall|k: int|
                    0 <= k < KNOBS ==> #[trigger] s.knobs@[k] == le16(
                        p@[11 + 2 * k],
                        p@[12 + 2 * k],
                    ),
                forall|k: int|
                    0 <= k < i ==> #[trigger] s.analog@[k] == le16(p@[27 + 2 * k], p@[28 + 2 * k]),
            decreases ANALOGS - i,
        {
            s.analog[i] = u16le(p, 27 + 2 * i);
            i += 1;
        }
        assert(s.buttons@ =~= p@.take(10));
        Some(s)
    }
}

/// One pad event decoded from report `0x02`.
#[derive(Debug, Clone, Copy, PartialEq, Eq, Structural)]
pub struct PadHit {
    /// Pad index, 0..16.
    pub pad: u8,
    /// What happened.
    pub event: PadEvent,
    /// 12-bit velocity or pressure.
    pub value: u16,
}

/// The event of the triplet `pad`, `raw`, `low`, if it is one: a known kind on an existing pad.
pub open spec fn hit_of(pad: u8, raw: u8, low: u8) -> Option<PadHit> {
    match PadEvent::of_nibble((raw - raw % 16) as u8) {
        Some(event) if pad < PADS => Some(
            PadHit { pad, event, value: ((raw % 16) * 256 + low) as u16 },
        ),
        _ => None,
    }
}

/// The events of the report `p` from byte `i` on: those of its whole triplets, up to the first
/// all-zero triplet past the first slot.
pub open spec fn hits_from(p: Seq<u8>, i: int) -> Seq<PadHit>
    decreases p.len() - i,
{
    if i < 0 || i + 2 >= p.len() {
        Seq::empty()
    } else if i > 0 && p[i] == 0 && p[i + 1] == 0 && p[i + 2] == 0 {
        Seq::empty()
    } else {
        match hit_of(p[i], p[i + 1], p[i + 2]) {
            Some(h) => seq![h] + hits_from(p, i + 3),
            None => hits_from(p, i + 3),
        }
    }
}

/// Decode report `0x02`'s payload into `out`.
///
/// The device packs up to 21 events per report and pads the remainder with zeroes, so decoding
/// stops at the first all-zero triplet past the first slot.
pub fn parse_pads(p: &[u8], out: &mut Vec<PadHit>)
    ensures
        final(out)@ == hits_from(p@, 0),
{
    out.clear();
    let mut i: usize = 0;
    while p.len() >= 3 && i < p.len() - 2
        invariant_except_break
            out@ + hits_from(p@, i as int) =~= hits_from(p@, 0),
        invariant
            i <= p@.len(),
        ensures
            out@ =~= hits_from(p@, 0),
        decreases p@.len() - i,
    {
        let pad = p[i];
        let raw = p[i + 1];
        let value: u16 = (raw % 16) as u16 * 256 + p[i + 2] as u16;
        if i > 0 && pad == 0 && raw == 0 && value == 0 {
            break;
        }
        if let Some(event) = PadEvent::from_nibble(raw - raw % 16) {
            if (pad as usize) < PADS {
                out.push(PadHit { pad, event, value });
            }
        }
        i += 3;
    }
}

/// Every decoded event is of an existing pad and has a 12-bit value, and a report never holds
/// more events than triplets.
pub proof fn law_hits_are_in_range(p: Seq<u8>, i: int)
    requires
        0 <= i <= p.len(),
    ensures
        3 * hits_from(p, i).len() <= p.len() - i,
        forall|k: int|
            0 <= k < hits_from(p, i).len() ==> (#[trigger] hits_from(p, i)[k]).pad < PADS
                && hits_from(p, i)[k].value <= PAD_MAX,
    decreases p.len() - i,
{
    if i + 2 < p.len() {
        law_hits_are_in_range(p, i + 3);
    }
}

/// Bytes that follow an all-zero triplet past the first slot are never read as events.
pub proof fn law_padding_ends_the_report(p: Seq<u8>, tail: Seq<u8>, i: int)
    requires
        0 <= i,
        i % 3 == 0,
        p.len() % 3 == 0,
        p.len() > 0,
        i <= p.len(),
    ensures
        hits_from(p + seq![0u8, 0, 0] + tail, i) == hits_from(p, i),
    decreases p.len() - i,
{
    let q = p + seq![0u8, 0, 0] + tail;
    if i < p.len() {
        assert(i + 3 <= p.len());
        law_padding_ends_the_report(p, tail, i + 3);
        assert(q[i] == p[i] && q[i + 1] == p[i + 1] && q[i + 2] == p[i + 2]);
    } else {
        assert(q[i] == 0 && q[i + 1] == 0 && q[i + 2] == 0);
    }
}

/// The signed distance from `prev` to `now` on a circle of `m` places, taken the short way round
/// and upwards where both ways are equally long.
pub open spec fn short_way(prev: int, now: int, m: int) -> int {
    let d = (now - prev) % m;
    if d > m / 2 {
        d - m
    } else {
        d
    }
}

/// Shortest signed path between two readings of a counter that wraps at `modulus`.
///
/// Both the encoder and the knobs are endless: they report a position that rolls over rather
/// than stopping at an end. Subtracting naively makes a single click across the seam read as a
/// near-full-scale jump in the wrong direction, so movement has to be measured the short way
/// round.
pub fn wrap_delta(prev: u16, now: u16, modulus: u16) -> (r: i32)
    requires
        modulus > 0,
    ensures
        r == short_way(prev as int, now as int, modulus as int),
{
    let m: i32 = modulus as i32;
    let a: i32 = (now % modulus) as i32;
    let b: i32 = (prev % modulus) as i32;
    let d: i32 = if a >= b {
        a - b
    } else {
        a - b + m
    };
    proof {
        lemma_sub_mod_noop(now as int, prev as int, m as int);
        if a >= b {
            lemma_small_mod((a - b) as nat, m as nat);
        } else {
            vstd::arithmetic::div_mod::lemma_mod_add_multiples_vanish(a - b, m as int);
            lemma_small_mod((a - b + m) as nat, m as nat);
        }
    }
    if d > m / 2 {
        d - m
    } else {
        d
    }
}

/// [`wrap_delta`] for the encoder's 4-bit counter.
pub fn nibble_delta(prev: u8, now: u8) -> (r: i8)
    ensures
        r == short_way(prev as int, now as int, 16),
        -7 <= r <= 8,
{
    wrap_delta(prev as u16, now as u16, 16) as i8
}

/// Going the short way from `prev` leads to `now`, and no way there is shorter.
pub proof fn law_short_way(prev: int, now: int, m: int)
    requires
        m > 0,
    ensures
        (prev + short_way(prev, now, m) - now) % m == 0,
        -m < 2 * short_way(prev, now, m) <= m,
        forall|e: int|
            #![trigger (prev + e - now) % m]
            (prev + e - now) % m == 0 ==> (short_way(prev, now, m) <= e || short_way(prev, now, m)
                <= -e) && (-short_way(prev, now, m) <= e || -short_way(prev, now, m) <= -e),
{
    let d = (now - prev) % m;
    let s = short_way(prev, now, m);
    let q = (now - prev) / m;
    vstd::arithmetic::div_mod::lemma_fundamental_div_mod(now - prev, m);
    assert(prev + d - now == -q * m) by (nonlinear_arith)
        requires
            now - prev == m * q + d,
    ;
    assert(prev + d - m - now == (-q - 1) * m) by (nonlinear_arith)
        requires
            now - prev == m * q + d,
    ;
    vstd::arithmetic::div_mod::lemma_mod_multiples_basic(-q, m);
    vstd::arithmetic::div_mod::lemma_mod_multiples_basic(-q - 1, m);
    assert forall|e: int| #![trigger (prev + e - now) % m] (prev + e - now) % m == 0 implies (s <= e
        || s <= -e) && (-s <= e || -s <= -e) by {
        let t = (prev + e - now) / m;
        vstd::arithmetic::div_mod::lemma_fundamental_div_mod(prev + e - now, m);
        let u = t + q;
        assert(e == m * u + d) by (nonlinear_arith)
            requires
                prev + e - now == m * t,
                now - prev == m * q + d,
                u == t + q,
        ;
        if u >= 1 {
            assert(m * u >= m) by (nonlinear_arith)
                requires
                    u >= 1,
                    m > 0,
            ;
        } else if u <= -1 {
            assert(m * u <= -m) by (nonlinear_arith)
                requires
                    u <= -1,
                    m > 0,
            ;
        } else {
            assert(m * u == 0) by (nonlinear_arith)
                requires
                    u == 0,
            ;
        }
    }
}

/// Going there and coming back cancel out, except half way round, where both directions are
/// equally long.
pub proof fn law_short_way_back(prev: int, now: int, m: int)
    requires
        m > 0,
        2 * short_way(prev, now, m) != m,
    ensures
        short_way(now, prev, m) == -short_way(prev, now, m),
{
    let s = short_way(prev, now, m);
    let t = short_way(now, prev, m);
    law_short_way(prev, now, m);
    law_short_way(now, prev, m);
    // `s + t` is a multiple of `m` that lies strictly between `-m` and `m`.
    let a = (prev + s - now) / m;
    let b = (now + t - prev) / m;
    vstd::arithmetic::div_mod::lemma_fundamental_div_mod(prev + s - now, m);
    vstd::arithmetic::div_mod::lemma_fundamental_div_mod(now + t - prev, m);
    assert(s + t == m * (a + b)) by (nonlinear_arith)
        requires
            prev + s - now == m * a,
            now + t - prev == m * b,
    ;
    let u = a + b;
    if u >= 1 {
        assert(m * u >= m) by (nonlinear_arith)
            requires
                u >= 1,
                m > 0,
        ;
    } else if u <= -1 {
        assert(m * u <= -m) by (nonlinear_arith)
            requires
                u <= -1,
                m > 0,
        ;
    } else {
        assert(m * u == 0) by (nonlinear_arith)
            requires
                u == 0,
        ;
    }
}

/// What bit `n` of a byte counts for.
pub open spec fn worth(n: int) -> int {
    if n == 0 {
        1
    } else if n == 1 {
        2
    } else if n == 2 {
        4
    } else if n == 3 {
        8
    } else if n == 4 {
        16
    } else if n == 5 {
        32
    } else if n == 6 {
        64
    } else {
        128
    }
}

/// A report is read by its places: 80 buttons, eight to a byte from the lowest bit on; the two halves
/// of the encoder byte; and the knobs and the analog fields, two bytes each, the lower one first.
pub proof fn law_a_report_is_read_by_its_places(s: ControlState, p: Seq<u8>, i: int)
    requires
        s.reads(p),
        p.len() >= 41,
    ensures
        0 <= i < 80 ==> (s.held(i) <==> (p[i / 8] as int / worth(i % 8)) % 2 == 1),
        i < 0 || i >= 80 ==> !s.held(i),
        p[10] == 16 * s.encoder_hi + s.encoder_lo && s.encoder_lo < 16,
        0 <= i < 8 ==> s.knobs@[i] == p[11 + 2 * i] + 256 * p[12 + 2 * i],
        0 <= i < 7 ==> s.analog@[i] == p[27 + 2 * i] + 256 * p[28 + 2 * i],
{
    if 0 <= i < 80 {
        let b = s.buttons@[i / 8];
        assert(b == p.take(10)[i / 8]);
        lemma_byte_bits(b);
        let n = i % 8;
        assert(n == 0 || n == 1 || n == 2 || n == 3 || n == 4 || n == 5 || n == 6 || n == 7);
    }
}

proof fn lemma_byte_bits(b: u8)
    ensures
        (b & (1u8 << 0u8) != 0) == (b % 2 == 1),
        (b & (1u8 << 1u8) != 0) == ((b / 2) % 2 == 1),
        (b & (1u8 << 2u8) != 0) == ((b / 4) % 2 == 1),
        (b & (1u8 << 3u8) != 0) == ((b / 8) % 2 == 1),
        (b & (1u8 << 4u8) != 0) == ((b / 16) % 2 == 1),
        (b & (1u8 << 5u8) != 0) == ((b / 32) % 2 == 1),
        (b & (1u8 << 6u8) != 0) == ((b / 64) % 2 == 1),
        (b & (1u8 << 7u8) != 0) == ((b / 128) % 2 == 1),
{
    assert((b & (1u8 << 0u8) != 0) == (b % 2 == 1)) by (bit_vector);
    assert((b & (1u8 << 1u8) != 0) == ((b / 2) % 2 == 1)) by (bit_vector);
    assert((b & (1u8 << 2u8) != 0) == ((b / 4) % 2 == 1)) by (bit_vector);
    assert((b & (1u8 << 3u8) != 0) == ((b / 8) % 2 == 1)) by (bit_vector);
    assert((b & (1u8 << 4u8) != 0) == ((b / 16) % 2 == 1)) by (bit_vector);
    assert((b & (1u8 << 5u8) != 0) == ((b / 32) % 2 == 1)) by (bit_vector);
    assert((b & (1u8 << 6u8) != 0) == ((b / 64) % 2 == 1)) by (bit_vector);
    assert((b & (1u8 << 7u8) != 0) == ((b / 128) % 2 == 1)) by (bit_vector);
}

/// The three bytes that the device writes for an event: the pad, the kind of event in sixteenths
/// with the upper bits of the value, and its lower eight bits.
pub open spec fn written(h: PadHit) -> Seq<u8> {
    let kind = match h.event {
        PadEvent::PressOn => 0int,
        PadEvent::NoteOn => 1,
        PadEvent::PressOff => 2,
        PadEvent::NoteOff => 3,
        PadEvent::Aftertouch => 4,
    };
    seq![h.pad, (16 * kind + h.value / 256) as u8, (h.value % 256) as u8]
}

/// The bytes of a report of some events.
pub open spec fn written_all(hits: Seq<PadHit>) -> Seq<u8>
    decreases hits.len(),
{
    if hits.len() == 0 {
        Seq::empty()
    } else {
        written(hits[0]) + written_all(hits.skip(1))
    }
}

/// An event can be told from padding: only a first press of pad 0 without any pressure looks like
/// it.
pub open spec fn tellable(h: PadHit) -> bool {
    &&& h.pad < 16
    &&& h.value < 4096
    &&& !(h.pad == 0 && h.event is PressOn && h.value == 0)
}

proof fn lemma_hits_shift(a: Seq<u8>, b: Seq<u8>, i: int)
    requires
        a.len() % 3 == 0,
        a.len() > 0,
        i >= 3,
        i <= b.len(),
    ensures
        hits_from(a + b, a.len() + i) == hits_from(b, i),
    decreases b.len() - i,
{
    let c = a + b;
    if i + 2 < b.len() {
        lemma_hits_shift(a, b, i + 3);
        assert(c[a.len() + i] == b[i] && c[a.len() + i + 1] == b[i + 1] && c[a.len() + i + 2] == b[i
            + 2]);
    }
}

proof fn lemma_written_reads(h: PadHit)
    requires
        h.pad < 16,
        h.value < 4096,
    ensures
        hit_of(written(h)[0], written(h)[1], written(h)[2]) == Some(h),
{
    let b = written(h);
    assert(b[1] % 16 == h.value / 256);
    assert((b[1] % 16) * 256 + b[2] == h.value);
}

/// What the device writes is read back: every event, in order.
pub proof fn law_written_events_are_read_back(hits: Seq<PadHit>)
    requires
        forall|i: int| 0 <= i < hits.len() ==> tellable(#[trigger] hits[i]),
    ensures
        hits_from(written_all(hits), 0) == hits,
    decreases hits.len(),
{
    let p = written_all(hits);
    if hits.len() > 0 {
        let rest = hits.skip(1);
        let q = written_all(rest);
        let h = hits[0];
        assert forall|i: int| 0 <= i < rest.len() implies tellable(#[trigger] rest[i]) by {
            assert(rest[i] == hits[i + 1]);
        }
        law_written_events_are_read_back(rest);
        assert(tellable(h));
        lemma_written_reads(h);
        assert(p[0] == written(h)[0] && p[1] == written(h)[1] && p[2] == written(h)[2]);
        assert(hits_from(p, 3) == rest) by {
            if rest.len() == 0 {
                assert(q.len() == 0);
                assert(rest =~= Seq::empty());
            } else {
                let g = rest[0];
                assert(tellable(g));
                lemma_written_reads(g);
                assert(q[0] == written(g)[0] && q[1] == written(g)[1] && q[2] == written(g)[2]);
                assert(p[3] == q[0] && p[4] == q[1] && p[5] == q[2]);
                assert(!(q[0] == 0 && q[1] == 0 && q[2] == 0));
                lemma_hits_shift(written(h), q, 3);
                assert(p =~= written(h) + q);
            }
        }
        assert(p =~= written(h) + q);
        assert(seq![h] + rest =~= hits);
    } else {
        assert(hits =~= Seq::empty());
    }
}

/// A triplet of an unknown kind, or of a pad that there is none of, is passed over.
pub proof fn law_unknown_events_are_passed_over(p: Seq<u8>)
    requires
        p.len() >= 3,
        p[0] >= 16 || p[1] >= 0x50,
    ensures
        hits_from(p, 0) == hits_from(p, 3),
{
}

/// A note starts with the events that strike a pad, and with no others.
pub proof fn law_strikes_start_a_note(k: PadEvent)
    ensures
        k is NoteOn || k is PressOn ==> k.starts(),
        k is NoteOff || k is PressOff || k is Aftertouch ==> !k.starts(),
{
}

} // verus!
