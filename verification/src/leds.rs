//! LED state for pads, buttons and the touch strip.
//!
//! The device takes two output reports, both of them plain arrays of 0..=127 brightness/colour
//! bytes:
//!
//! * report `0x80`, 62 bytes
//! * report `0x81`, 41 bytes
//!
//! They are treated as one flat address space of [`LED_COUNT`] slots so that the config file can
//! name a slot by a single index and stay agnostic about which report carries it.
//!
//! Colour LEDs encode as `(palette_index << 2) | level`, where `level` is 0..=3. The palette
//! itself lives in writable feature reports `0xfe` / `0xff`, which hold RGB triplets at four
//! brightness steps each.
use vstd::prelude::*;

verus! {

/// Slots carried by output report `0x80`.
pub const BANK0_LEN: usize = 62;

/// Slots carried by output report `0x81`.
pub const BANK1_LEN: usize = 41;

/// Total addressable LED slots.
pub const LED_COUNT: usize = 103;

/// Id of the output report that carries the first bank.
pub const BANK0_ID: u8 = 0x80;

/// Id of the output report that carries the second bank.
pub const BANK1_ID: u8 = 0x81;

/// Brightness steps a colour LED can take, as encoded in the low two bits.
#[derive(Debug, Clone, Copy, PartialEq, Eq, Structural, PartialOrd, Ord)]
pub enum Level {
    /// Fully extinguished.
    Off,
    /// Lowest lit step, used for "this pad exists" backlighting.
    Dim,
    /// Normal step.
    Normal,
    /// Brightest step.
    Bright,
}

impl Level {
    /// The step's number, 0..=3.
    pub open spec fn step(self) -> u8 {
        match self {
            Level::Off => 0,
            Level::Dim => 1,
            Level::Normal => 2,
            Level::Bright => 3,
        }
    }

    /// The step's number, 0..=3.
    pub fn as_u8(self) -> (r: u8)
        ensures
            r == self.step(),
    {
        match self {
            Level::Off => 0,
            Level::Dim => 1,
            Level::Normal => 2,
            Level::Bright => 3,
        }
    }

    /// Map 0..=3 onto a level, saturating.
    pub fn from_u8(v: u8) -> (r: Self)
        ensures
            r.step() == if v < 3 {
                v
            } else {
                3
            },
    {
        match v {
            0 => Level::Off,
            1 => Level::Dim,
            2 => Level::Normal,
            _ => Level::Bright,
        }
    }
}

/// The byte of a colour LED: dark where the level is off, else the low six bits of the palette
/// index above the two bits of the level.
pub open spec fn colour_byte(palette_index: u8, level: Level) -> u8 {
    if level is Off {
        0
    } else {
        ((palette_index * 4) % 256 + level.step()) as u8
    }
}

/// Encode a colour LED byte from a palette index and a brightness step.
pub fn colour(palette_index: u8, level: Level) -> (r: u8)
    ensures
        r == colour_byte(palette_index, level),
{
    match level {
        Level::Off => 0,
        _ => (palette_index % 64) * 4 + level.as_u8(),
    }
}

/// A lit colour byte gives back the palette index and the level it was made from, for every index
/// that six bits hold, and only a dark LED is zero.
pub proof fn law_colour_reads_back(palette_index: u8, level: Level)
    requires
        palette_index < 64,
    ensures
        level is Off <==> colour_byte(palette_index, level) == 0,
        !(level is Off) ==> colour_byte(palette_index, level) / 4 == palette_index,
        colour_byte(palette_index, level) % 4 == level.step(),
{
}

/// A higher level is a brighter byte of the same colour, from off over dim and normal to bright; a
/// palette index counts up to what six bits hold.
pub proof fn law_levels_go_up(palette_index: u8, a: Level, b: Level)
    ensures
        Level::Off.step() < Level::Dim.step() < Level::Normal.step() < Level::Bright.step(),
        a.step() < b.step() ==> colour_byte(palette_index, a) < colour_byte(palette_index, b),
        !(a is Off) ==> colour_byte(palette_index, a) / 4 == palette_index % 64,
        a is Off <==> colour_byte(palette_index, a) == 0,
{
}

/// A monochrome LED gets the brightness that was asked for, and full brightness past the range.
pub proof fn law_brightness_is_kept_in_range(a: u8, b: u8)
    ensures
        mono_byte(a) <= 127,
        a <= 127 ==> mono_byte(a) == a,
        a <= b ==> mono_byte(a) <= mono_byte(b),
        a > 127 ==> mono_byte(a) >= mono_byte(b),
{
}

pub open spec fn mono_byte(brightness: u8) -> u8 {
    if brightness > 127 {
        127
    } else {
        brightness
    }
}

/// Encode a monochrome LED byte. Mono LEDs use the full 0..=127 range.
pub fn mono(brightness: u8) -> (r: u8)
    ensures
        r == mono_byte(brightness),
{
    if brightness > 127 {
        127
    } else {
        brightness
    }
}

/// The slots `s` after a write of `value` to `index`: a write past the end changes nothing.
pub open spec fn lit(s: Seq<u8>, index: int, value: u8) -> Seq<u8> {
    if 0 <= index < LED_COUNT {
        s.update(index, value)
    } else {
        s
    }
}

/// The bytes of all slots, and whether one was changed that has yet to be written out.
pub struct Lamps {
    pub bytes: Seq<u8>,
    pub changed: bool,
}

/// The slots after a write of `value` to `index`: they are changed if they were, or if the slot
/// held something else.
pub open spec fn lit_one(s: Lamps, index: int, value: u8) -> Lamps {
    let after = lit(s.bytes, index, value);
    Lamps { bytes: after, changed: s.changed || after != s.bytes }
}

/// The slots once they are all dark.
pub open spec fn darkened(s: Lamps) -> Lamps {
    Lamps { bytes: dark(), changed: s.changed || s.bytes != dark() }
}

/// Every slot dark.
pub open spec fn dark() -> Seq<u8> {
    Seq::new(LED_COUNT as nat, |i: int| 0u8)
}

/// The full LED surface, with change tracking so idle frames cost nothing.
pub struct Leds {
    state: [u8; LED_COUNT],
    sent: [u8; LED_COUNT],
    dirty: bool,
}

impl Leds {
    /// The bytes of all slots.
    pub closed spec fn bytes(self) -> Seq<u8> {
        self.state@
    }

    /// The bytes that were last handed out to be written.
    pub closed spec fn last_sent(self) -> Seq<u8> {
        self.sent@
    }

    /// Whether there is something to write out.
    pub closed spec fn changed(self) -> bool {
        self.dirty
    }

    /// The slots with their change tracking.
    pub open spec fn lamps(self) -> Lamps {
        Lamps { bytes: self.bytes(), changed: self.changed() }
    }

    /// Every surface has a byte for every slot.
    pub proof fn law_every_slot_has_a_byte(self)
        ensures
            self.bytes().len() == LED_COUNT,
            self.last_sent().len() == LED_COUNT,
    {
    }

    /// A surface with nothing to write out shows what was last written.
    pub open spec fn synced(self) -> bool {
        &&& self.bytes().len() == LED_COUNT
        &&& !self.changed() ==> self.bytes() == self.last_sent()
    }

    /// All LEDs dark, and marked dirty so the first flush pushes the state.
    pub fn new() -> (r: Self)
        ensures
            r.bytes() == dark(),
            r.changed(),
            r.synced(),
            // A value the device can never hold.
            r.last_sent() == Seq::new(LED_COUNT as nat, |i: int| 0xffu8),
    {
        let r = Leds { state: [0; LED_COUNT], sent: [0xff; LED_COUNT], dirty: true };
        assert(r.state@ =~= dark());
        assert(r.sent@ =~= Seq::new(LED_COUNT as nat, |i: int| 0xffu8));
        r
    }

    /// Set one slot's raw byte.
    pub fn set(&mut self, index: usize, value: u8)
        ensures
            final(self).lamps() == lit_one(old(self).lamps(), index as int, value),
            final(self).last_sent() == old(self).last_sent(),
            old(self).synced() ==> final(self).synced(),
    {
        if index < LED_COUNT && self.state[index] != value {
            self.state[index] = value;
            self.dirty = true;
            assert(self.state@[index as int] != old(self).state@[index as int]);
        }
        assert(self.state@ =~= lit(old(self).state@, index as int, value));
    }

    /// Read back one slot's raw byte.
    pub fn get(&self, index: usize) -> (r: u8)
        ensures
            r == if index < LED_COUNT {
                self.bytes()[index as int]
            } else {
                0
            },
    {
        if index < LED_COUNT {
            self.state[index]
        } else {
            0
        }
    }

    /// Turn every LED off.
    pub fn all_off(&mut self)
        ensures
            final(self).lamps() == darkened(old(self).lamps()),
            final(self).last_sent() == old(self).last_sent(),
            old(self).synced() ==> final(self).synced(),
    {
        let mut any = false;
        let mut i: usize = 0;
        while i < LED_COUNT
            invariant
                i <= LED_COUNT,
                any <==> exists|k: int| 0 <= k < i && #[trigger] self.state@[k] != 0,
            decreases LED_COUNT - i,
        {
            if self.state[i] != 0 {
                any = true;
            }
            i += 1;
        }
        if any {
            proof {
                let k = choose|k: int| 0 <= k < LED_COUNT && #[trigger] self.state@[k] != 0;
                assert(self.state@[k] != dark()[k]);
            }
            self.state = [0; LED_COUNT];
            self.dirty = true;
        }
        assert(self.state@ =~= dark());
    }

    /// Whether a flush would send anything.
    pub fn is_dirty(&self) -> (r: bool)
        ensures
            r == self.changed(),
    {
        self.dirty
    }

    /// The two output reports to write, first bank first; nothing if no slot has changed.
    ///
    /// Both reports go out together: they are only ~100 bytes over an interrupt endpoint, and
    /// splitting them by bank would double the syscall count for no benefit.
    pub fn pending(&self) -> (r: Option<(Vec<u8>, Vec<u8>)>)
        ensures
            r is Some <==> self.changed(),
            r is Some ==> (r->0).0@ == bank_report(
                BANK0_ID,
                self.bytes().subrange(0, BANK0_LEN as int),
            ) && (r->0).1@ == bank_report(
                BANK1_ID,
                self.bytes().subrange(BANK0_LEN as int, LED_COUNT as int),
            ),
    {
        if !self.dirty {
            return None;
        }
        let b0 = self.report(BANK0_ID, 0, BANK0_LEN);
        let b1 = self.report(BANK1_ID, BANK0_LEN, LED_COUNT);
        Some((b0, b1))
    }

    fn report(&self, id: u8, from: usize, to: usize) -> (r: Vec<u8>)
        requires
            from <= to <= LED_COUNT,
        ensures
            r@ == bank_report(id, self.bytes().subrange(from as int, to as int)),
    {
        let mut r: Vec<u8> = Vec::new();
        r.push(id);
        let mut i: usize = from;
        while i < to
            invariant
                from <= i <= to <= LED_COUNT,
                r@ =~= bank_report(id, self.state@.subrange(from as int, i as int)),
            decreases to - i,
        {
            r.push(self.state[i]);
            i += 1;
        }
        r
    }

    /// Record that the current state has been handed to whoever writes it out.
    ///
    /// Used when a second thread owns the device handle: the producer clears its dirty flag here,
    /// and the consumer keeps its own copy for deduplication.
    pub fn mark_published(&mut self)
        ensures
            final(self).bytes() == old(self).bytes(),
            final(self).last_sent() == old(self).bytes(),
            !final(self).changed(),
            old(self).synced() ==> final(self).synced(),
    {
        self.sent = self.state;
        self.dirty = false;
    }

    /// Raw state, for the learn tool.
    pub fn raw_mut(&mut self) -> (r: &mut [u8; LED_COUNT])
        ensures
            r@ == old(self).bytes(),
            final(self).bytes() == final(r)@,
            final(self).changed(),
            final(self).last_sent() == old(self).last_sent(),
            final(self).synced(),
    {
        self.dirty = true;
        &mut self.state
    }
}

impl Default for Leds {
    fn default() -> (r: Self)
        ensures
            r.bytes() == dark(),
            r.changed(),
    {
        Leds::new()
    }
}

/// An output report: its id, then its payload.
pub open spec fn bank_report(id: u8, payload: Seq<u8>) -> Seq<u8> {
    seq![id] + payload
}

/// The payloads of the two reports, one after the other, are all the slots in order.
pub proof fn law_reports_carry_every_slot(bytes: Seq<u8>)
    requires
        bytes.len() == LED_COUNT,
    ensures
        bank_report(BANK0_ID, bytes.subrange(0, BANK0_LEN as int)).skip(1) + bank_report(
            BANK1_ID,
            bytes.subrange(BANK0_LEN as int, LED_COUNT as int),
        ).skip(1) == bytes,
{
    assert(bank_report(BANK0_ID, bytes.subrange(0, BANK0_LEN as int)).skip(1) + bank_report(
        BANK1_ID,
        bytes.subrange(BANK0_LEN as int, LED_COUNT as int),
    ).skip(1) =~= bytes);
}

/// Writing what a slot holds costs nothing, and writing anything else marks it for writing out.
pub proof fn law_writes_are_marked(s: Lamps, index: int, value: u8)
    requires
        s.bytes.len() == LED_COUNT,
    ensures
        !(0 <= index < LED_COUNT) || s.bytes[index] == value ==> lit_one(s, index, value) == s,
        0 <= index < LED_COUNT && s.bytes[index] != value ==> lit_one(s, index, value).changed,
{
    if 0 <= index < LED_COUNT {
        if s.bytes[index] == value {
            assert(lit(s.bytes, index, value) =~= s.bytes);
        } else {
            assert(lit(s.bytes, index, value)[index] != s.bytes[index]);
        }
    }
}

/// A write is read back from its slot, and no other slot sees it. Nothing that waits to be written
/// out is forgotten.
pub proof fn law_a_write_is_read_back(s: Lamps, index: int, value: u8, j: int)
    requires
        s.bytes.len() == LED_COUNT,
    ensures
        lit_one(s, index, value).bytes.len() == LED_COUNT,
        0 <= index < LED_COUNT ==> lit_one(s, index, value).bytes[index] == value,
        0 <= j < LED_COUNT && j != index ==> lit_one(s, index, value).bytes[j] == s.bytes[j],
        s.changed ==> lit_one(s, index, value).changed,
        !s.changed && !lit_one(s, index, value).changed ==> lit_one(s, index, value).bytes
            == s.bytes,
{
}

/// Turning everything off leaves no slot lit, and is marked for writing out where one was.
pub proof fn law_all_off_leaves_nothing_lit(s: Lamps, j: int)
    requires
        s.bytes.len() == LED_COUNT,
        0 <= j < LED_COUNT,
    ensures
        darkened(s).bytes.len() == LED_COUNT,
        darkened(s).bytes[j] == 0,
        s.bytes[j] != 0 || s.changed ==> darkened(s).changed,
        darkened(darkened(s)) == darkened(s),
{
    if s.bytes[j] != 0 {
        assert(s.bytes[j] != dark()[j]);
    }
}

/// A report starts with its id, by which the device tells the two banks apart, and goes on with its
/// payload.
pub proof fn law_a_report_starts_with_its_id(id: u8, payload: Seq<u8>, k: int)
    requires
        0 <= k < payload.len(),
    ensures
        bank_report(id, payload).len() == 1 + payload.len(),
        bank_report(id, payload)[0] == id,
        bank_report(id, payload)[1 + k] == payload[k],
        BANK0_ID != BANK1_ID,
        BANK0_LEN + BANK1_LEN == LED_COUNT,
{
}

/// Writes to different slots can be made in either order.
pub proof fn law_writes_commute(s: Seq<u8>, i: int, a: u8, j: int, b: u8)
    requires
        i != j,
        s.len() == LED_COUNT,
    ensures
        lit(lit(s, i, a), j, b) == lit(lit(s, j, b), i, a),
{
    assert(lit(lit(s, i, a), j, b) =~= lit(lit(s, j, b), i, a));
}

/// An RGB colour ramp for one palette entry: four brightness steps.
#[derive(Debug, Clone, Copy)]
pub struct Ramp(pub [(u8, u8, u8); 4]);

/// Payload bytes of the palette reports `0xfe` and `0xff`.
pub const PALETTE_LEN: usize = 208;

/// Whole triplets that fit in a palette report.
pub const PALETTE_TRIPLETS: usize = 69;

/// One component of a triplet.
pub open spec fn component(t: (u8, u8, u8), c: int) -> u8 {
    if c == 0 {
        t.0
    } else if c == 1 {
        t.1
    } else {
        t.2
    }
}

/// Byte `k` of the palette report that carries `ramps`: after the id, four consecutive triplets
/// per ramp, each component with its upper bit cleared, and black past the last whole triplet.
pub open spec fn palette_byte(report_id: u8, ramps: Seq<Ramp>, k: int) -> u8 {
    let t = (k - 1) / 3;
    if k == 0 {
        report_id
    } else if t < PALETTE_TRIPLETS && t / 4 < ramps.len() {
        (component(ramps[t / 4].0@[t % 4], (k - 1) % 3) % 128) as u8
    } else {
        0
    }
}

/// The feature report that overwrites the device's colour palette (`0xfe` or `0xff`).
///
/// The report is a flat run of 7-bit RGB triplets, four consecutive triplets per palette entry
/// (one per brightness step). Entries beyond what `ramps` supplies are left black.
pub fn palette_report(report_id: u8, ramps: &[Ramp]) -> (r: Vec<u8>)
    ensures
        r@ == Seq::new((1 + PALETTE_LEN) as nat, |k: int| palette_byte(report_id, ramps@, k)),
{
    let mut buf: Vec<u8> = Vec::new();
    buf.push(report_id);
    let mut t: usize = 0;
    while t < PALETTE_TRIPLETS
        invariant
            t <= PALETTE_TRIPLETS,
            buf@.len() == 1 + 3 * t,
            forall|k: int|
                0 <= k < buf@.len() ==> #[trigger] buf@[k] == palette_byte(report_id, ramps@, k),
        decreases PALETTE_TRIPLETS - t,
    {
        let (r, g, b) = if t / 4 < ramps.len() {
            ramps[t / 4].0[t % 4]
        } else {
            (0, 0, 0)
        };
        buf.push(r % 128);
        buf.push(g % 128);
        buf.push(b % 128);
        t += 1;
    }
    buf.push(0);
    assert(buf@ =~= Seq::new(
        (1 + PALETTE_LEN) as nat,
        |k: int| palette_byte(report_id, ramps@, k),
    ));
    buf
}

/// A palette report starts with its id; all its other bytes have seven bits, and those past the
/// ramps that were given are dark.
pub proof fn law_the_rest_of_a_palette_is_dark(report_id: u8, ramps: Seq<Ramp>, k: int)
    requires
        0 < k,
    ensures
        palette_byte(report_id, ramps, 0) == report_id,
        palette_byte(report_id, ramps, k) < 128,
        k > 12 * ramps.len() ==> palette_byte(report_id, ramps, k) == 0,
{
}

/// The triplet that starts at byte `o`.
pub open spec fn triplet(p: Seq<u8>, o: int) -> (u8, u8, u8) {
    (p[o], p[o + 1], p[o + 2])
}

/// The ramps of a palette report: one for each twelve bytes after the id, a shorter rest ignored.
pub fn parse_palette(got: &[u8]) -> (r: Vec<Ramp>)
    requires
        got@.len() > 0,
    ensures
        r@.len() == (got@.len() - 1) / 12,
        forall|i: int, j: int|
            0 <= i < r@.len() && 0 <= j < 4 ==> #[trigger] r@[i].0@[j] == triplet(
                got@,
                1 + 12 * i + 3 * j,
            ),
{
    let mut out: Vec<Ramp> = Vec::new();
    let n: usize = (got.len() - 1) / 12;
    let mut i: usize = 0;
    while i < n
        invariant
            i <= n,
            n == (got@.len() - 1) / 12,
            got@.len() <= usize::MAX,
            out@.len() == i,
            forall|k: int, j: int|
                0 <= k < i && 0 <= j < 4 ==> #[trigger] out@[k].0@[j] == triplet(
                    got@,
                    1 + 12 * k + 3 * j,
                ),
        decreases n - i,
    {
        let o: usize = 1 + 12 * i;
        let t = [
            (got[o], got[o + 1], got[o + 2]),
            (got[o + 3], got[o + 4], got[o + 5]),
            (got[o + 6], got[o + 7], got[o + 8]),
            (got[o + 9], got[o + 10], got[o + 11]),
        ];
        out.push(Ramp(t));
        i += 1;
    }
    out
}

/// A palette that is written and read back is the one that was written, where it has at most
/// the seventeen entries that a report holds whole and no component is above 127.
pub proof fn law_palette_reads_back(report_id: u8, ramps: Seq<Ramp>, i: int, j: int)
    requires
        0 <= i < ramps.len() <= 17,
        0 <= j < 4,
        ramps[i].0@[j].0 < 128,
        ramps[i].0@[j].1 < 128,
        ramps[i].0@[j].2 < 128,
    ensures
        triplet(
            Seq::new((1 + PALETTE_LEN) as nat, |k: int| palette_byte(report_id, ramps, k)),
            1 + 12 * i + 3 * j,
        ) == ramps[i].0@[j],
{
    let k = 1 + 12 * i + 3 * j;
    assert((k - 1) / 3 == 4 * i + j);
    assert((k - 1 + 1) / 3 == 4 * i + j);
    assert((k - 1 + 2) / 3 == 4 * i + j);
    assert((4 * i + j) / 4 == i);
    assert((4 * i + j) % 4 == j);
}

} // verus!
