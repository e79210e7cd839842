//! Device profiles: what the hardware *is*, as data.
//!
//! Which bit in the HID report is Play, which LED slot lights it, where it sits on the panel:
//! none of that is a preference, and none of it belongs in a user's config file. It lives in a
//! profile so that:
//!
//! * a user's settings survive a correction to the hardware map, and vice versa;
//! * the config can name controls the way the panel does (`play`, `mute`) instead of by bit
//!   index;
//! * supporting another Native Instruments controller is a matter of writing a new profile. The
//!   report layouts differ between models in offsets and counts, not in kind.
use crate::namemap::{lookup, NameMap};
use crate::config::{config_dir, dir_of, maybe_view};
use crate::text::{dec, in_dir, join_path, push_dec};
use vstd::prelude::*;

verus! {

/// A complete description of one controller.
#[derive(Debug, Clone)]
pub struct Profile {
    /// Identity.
    pub device: DeviceInfo,
    /// Report ids and LED bank sizes.
    pub report: Reports,
    /// Field offsets and counts within those reports.
    pub layout: Layout,
    /// Every control, keyed by the name the config uses.
    pub control: NameMap<Control>,
}

/// Which device a profile is for.
#[derive(Debug, Clone)]
pub struct DeviceInfo {
    /// Human-readable name.
    pub name: String,
    /// USB vendor id.
    pub vendor: u16,
    /// USB product id.
    pub product: u16,
}

/// HID report ids.
#[derive(Debug, Clone)]
pub struct Reports {
    /// Input report carrying buttons, knobs, encoder and analog fields.
    pub controls: u8,
    /// Input report carrying pad events.
    pub pads: u8,
    /// Output reports carrying LED state, as `[report id, byte length]`.
    ///
    /// The driver addresses them as one flat array, in this order.
    pub led_banks: Vec<(u8, usize)>,
}

/// The sum of the bank lengths.
pub open spec fn bank_total(banks: Seq<(u8, usize)>) -> nat
    decreases banks.len(),
{
    if banks.len() == 0 {
        0
    } else {
        bank_total(banks.drop_last()) + banks.last().1 as nat
    }
}

proof fn lemma_bank_total_grows(banks: Seq<(u8, usize)>, n: int)
    requires
        0 <= n <= banks.len(),
    ensures
        bank_total(banks.take(n)) <= bank_total(banks),
    decreases banks.len(),
{
    if n == banks.len() {
        assert(banks.take(n) =~= banks);
    } else {
        assert(banks.drop_last().take(n) =~= banks.take(n));
        lemma_bank_total_grows(banks.drop_last(), n);
    }
}

impl Reports {
    /// Total addressable LED slots.
    pub open spec fn slots(self) -> nat {
        bank_total(self.led_banks@)
    }

    /// Total addressable LED slots.
    pub fn led_count(&self) -> (r: usize)
        requires
            self.slots() <= usize::MAX,
        ensures
            r == self.slots(),
    {
        let mut sum: usize = 0;
        let mut i: usize = 0;
        assert(self.led_banks@.take(0) =~= Seq::empty());
        while i < self.led_banks.len()
            invariant
                i <= self.led_banks@.len(),
                sum == bank_total(self.led_banks@.take(i as int)),
                self.slots() <= usize::MAX,
            decreases self.led_banks@.len() - i,
        {
            proof {
                let next = self.led_banks@.take(i as int + 1);
                assert(next.drop_last() =~= self.led_banks@.take(i as int));
                lemma_bank_total_grows(self.led_banks@, i as int + 1);
            }
            sum += self.led_banks[i].1;
            i += 1;
        }
        assert(self.led_banks@.take(i as int) =~= self.led_banks@);
        sum
    }
}

/// Where things sit inside the reports.
#[derive(Debug, Clone)]
pub struct Layout {
    /// Byte offset of the button bitfield.
    pub buttons_offset: usize,
    /// How many button bits there are.
    pub button_bits: usize,
    /// Byte offset of the encoder's nibble counter.
    pub encoder_offset: usize,
    /// Byte offset of the first knob.
    pub knobs_offset: usize,
    /// How many knobs.
    pub knobs: usize,
    /// Value the knobs wrap at.
    pub knob_max: u16,
    /// Byte offset of the first analog field.
    pub analog_offset: usize,
    /// How many analog fields.
    pub analog_count: usize,
    /// How many pads.
    pub pads: usize,
    /// Full-scale pad reading.
    pub pad_max: u16,
    /// Flat LED slot of pad 0.
    pub pad_led_base: usize,
    /// Flat LED slot of the touch strip's first LED.
    pub strip_led_base: usize,
    /// How many LEDs the strip has.
    pub strip_leds: usize,
    /// Whether the strip's slots run opposite to the finger.
    pub strip_led_reversed: bool,
    /// Which analog field the strip reports on.
    pub strip_analog: usize,
    /// Full-scale strip reading.
    pub strip_max: u16,
    /// First analog field belonging to the pedal jack.
    pub pedal_analog_base: usize,
    /// Panel width, in the units the controls use: the bits of a single-precision number.
    pub panel_width: u32,
    /// Panel height, in the same units and form.
    pub panel_height: u32,
}

/// What sort of thing a control is.
#[derive(Debug, Clone, Copy, PartialEq, Eq, Structural)]
pub enum ControlKind {
    /// A button in the HID button bitfield.
    Button,
    /// One of the pads.
    Pad,
    /// One of the knobs.
    Knob,
    /// The push encoder's rotation.
    Encoder,
    /// The touch strip.
    Strip,
    /// A display.
    Screen,
}

/// One control on the panel.
///
/// Positions and sizes are the bits of single-precision numbers.
#[derive(Debug, Clone)]
pub struct Control {
    /// What sort of control it is.
    pub kind: ControlKind,
    /// Short text for the panel map.
    pub label: String,
    /// Index within its kind: pad number, knob number.
    pub index: usize,
    /// Bit in the button field, for a button.
    pub bit: Option<usize>,
    /// Flat LED slot, when it has a light.
    pub led: Option<usize>,
    /// Palette index when its LED decodes colour rather than brightness.
    pub led_colour: Option<u8>,
    /// Loose grouping, for the config file and the panel map.
    pub group: Option<String>,
    /// Panel position, omitted when unplaced.
    pub x: Option<u32>,
    /// Panel position.
    pub y: Option<u32>,
    /// Panel size.
    pub w: Option<u32>,
    /// Panel size.
    pub h: Option<u32>,
}

impl Control {
    /// A button on that bit.
    pub open spec fn claims_bit(self, bit: usize) -> bool {
        self.kind is Button && self.bit == Some(bit)
    }

    /// A control with that LED slot.
    pub open spec fn claims_led(self, led: usize) -> bool {
        self.led == Some(led)
    }
}

/// Why a profile cannot be acted on, as a model.
pub enum ProfileFault {
    BitsNotBytes,
    PadLeds(nat),
    StripLeds(nat),
    StripAnalog(nat, nat),
    PedalAnalog(nat, nat),
    FullScale,
    Overlap(nat, nat, nat, nat),
    NoBit(Seq<char>),
    BitRange(Seq<char>, nat, nat),
    BitClash(Seq<char>, Seq<char>, nat),
    LedRange(Seq<char>, nat, nat),
    LedClash(Seq<char>, Seq<char>, nat),
    LedInBlock(Seq<char>, nat),
}

/// Why a profile cannot be acted on.
#[derive(Debug)]
pub enum ProfileError {
    /// `button_bits` is not a whole number of bytes.
    BitsNotBytes,
    /// The pad LEDs run past the last slot; how many there are.
    PadLeds(usize),
    /// The strip's LEDs run past the last slot; how many there are.
    StripLeds(usize),
    /// The strip's analog field, and how many there are.
    StripAnalog(usize, usize),
    /// The first analog field of the pedals, and how many there are.
    PedalAnalog(usize, usize),
    /// A full-scale value is 0.
    FullScale,
    /// The pad block and the strip block overlap: both ends of each.
    Overlap(usize, usize, usize, usize),
    /// A button without a bit.
    NoBit(String),
    /// A button's bit, and how many there are.
    BitRange(String, usize, usize),
    /// Two buttons on one bit.
    BitClash(String, String, usize),
    /// A control's LED slot, and how many there are.
    LedRange(String, usize, usize),
    /// Two controls on one LED slot.
    LedClash(String, String, usize),
    /// A control's LED slot lies in a block that is painted wholesale.
    LedInBlock(String, usize),
}

impl View for ProfileError {
    type V = ProfileFault;

    open spec fn view(&self) -> ProfileFault {
        match *self {
            ProfileError::BitsNotBytes => ProfileFault::BitsNotBytes,
            ProfileError::PadLeds(n) => ProfileFault::PadLeds(n as nat),
            ProfileError::StripLeds(n) => ProfileFault::StripLeds(n as nat),
            ProfileError::StripAnalog(a, n) => ProfileFault::StripAnalog(a as nat, n as nat),
            ProfileError::PedalAnalog(a, n) => ProfileFault::PedalAnalog(a as nat, n as nat),
            ProfileError::FullScale => ProfileFault::FullScale,
            ProfileError::Overlap(a, b, c, d) => ProfileFault::Overlap(
                a as nat,
                b as nat,
                c as nat,
                d as nat,
            ),
            ProfileError::NoBit(n) => ProfileFault::NoBit(n@),
            ProfileError::BitRange(n, b, m) => ProfileFault::BitRange(n@, b as nat, m as nat),
            ProfileError::BitClash(n, p, b) => ProfileFault::BitClash(n@, p@, b as nat),
            ProfileError::LedRange(n, l, m) => ProfileFault::LedRange(n@, l as nat, m as nat),
            ProfileError::LedClash(n, p, l) => ProfileFault::LedClash(n@, p@, l as nat),
            ProfileError::LedInBlock(n, l) => ProfileFault::LedInBlock(n@, l as nat),
        }
    }
}

impl ProfileFault {
    /// The message for it.
    pub open spec fn text(self) -> Seq<char> {
        match self {
            ProfileFault::BitsNotBytes => "layout.button_bits must be a multiple of 8"@,
            ProfileFault::PadLeds(n) => "pad LEDs run past the last slot ("@ + dec(n) + ")"@,
            ProfileFault::StripLeds(n) => "touch strip LEDs run past the last slot ("@ + dec(n)
                + ")"@,
            ProfileFault::StripAnalog(a, n) => "layout.strip_analog "@ + dec(a)
                + " is outside 0.."@ + dec(n),
            ProfileFault::PedalAnalog(a, n) => "layout.pedal_analog_base "@ + dec(a)
                + " is outside 0.."@ + dec(n),
            ProfileFault::FullScale => "full-scale values must be above 0"@,
            ProfileFault::Overlap(a, b, c, d) => "the pad block ("@ + dec(a) + ".."@ + dec(b)
                + ") and the touch strip block ("@ + dec(c) + ".."@ + dec(d) + ") overlap"@,
            ProfileFault::NoBit(n) => "control."@ + n + " is a button but has no bit"@,
            ProfileFault::BitRange(n, b, m) => "control."@ + n + ": bit "@ + dec(b)
                + " outside 0.."@ + dec(m),
            ProfileFault::BitClash(n, p, b) => "control."@ + n + " and control."@ + p
                + " both claim bit "@ + dec(b),
            ProfileFault::LedRange(n, l, m) => "control."@ + n + ": led "@ + dec(l)
                + " outside 0.."@ + dec(m),
            ProfileFault::LedClash(n, p, l) => "control."@ + n + " and control."@ + p
                + " both claim LED slot "@ + dec(l),
            ProfileFault::LedInBlock(n, l) => "control."@ + n + ": LED slot "@ + dec(l)
                + " is inside the pad or touch strip block"@,
        }
    }
}

impl ProfileError {
    /// The message for it.
    pub fn message(&self) -> (r: String)
        ensures
            r@ == self@.text(),
    {
        let mut s = String::new();
        match self {
            ProfileError::BitsNotBytes => {
                s.append("layout.button_bits must be a multiple of 8");
            },
            ProfileError::PadLeds(n) => {
                s.append("pad LEDs run past the last slot (");
                push_dec(&mut s, *n as u64);
                s.append(")");
            },
            ProfileError::StripLeds(n) => {
                s.append("touch strip LEDs run past the last slot (");
                push_dec(&mut s, *n as u64);
                s.append(")");
            },
            ProfileError::StripAnalog(a, n) => {
                s.append("layout.strip_analog ");
                push_dec(&mut s, *a as u64);
                s.append(" is outside 0..");
                push_dec(&mut s, *n as u64);
            },
            ProfileError::PedalAnalog(a, n) => {
                s.append("layout.pedal_analog_base ");
                push_dec(&mut s, *a as u64);
                s.append(" is outside 0..");
                push_dec(&mut s, *n as u64);
            },
            ProfileError::FullScale => {
                s.append("full-scale values must be above 0");
            },
            ProfileError::Overlap(a, b, c, d) => {
                s.append("the pad block (");
                push_dec(&mut s, *a as u64);
                s.append("..");
                push_dec(&mut s, *b as u64);
                s.append(") and the touch strip block (");
                push_dec(&mut s, *c as u64);
                s.append("..");
                push_dec(&mut s, *d as u64);
                s.append(") overlap");
            },
            ProfileError::NoBit(n) => {
                s.append("control.");
                s.append(n.as_str());
                s.append(" is a button but has no bit");
            },
            ProfileError::BitRange(n, b, m) => {
                s.append("control.");
                s.append(n.as_str());
                s.append(": bit ");
                push_dec(&mut s, *b as u64);
                s.append(" outside 0..");
                push_dec(&mut s, *m as u64);
            },
            ProfileError::BitClash(n, p, b) => {
                s.append("control.");
                s.append(n.as_str());
                s.append(" and control.");
                s.append(p.as_str());
                s.append(" both claim bit ");
                push_dec(&mut s, *b as u64);
            },
            ProfileError::LedRange(n, l, m) => {
                s.append("control.");
                s.append(n.as_str());
                s.append(": led ");
                push_dec(&mut s, *l as u64);
                s.append(" outside 0..");
                push_dec(&mut s, *m as u64);
            },
            ProfileError::LedClash(n, p, l) => {
                s.append("control.");
                s.append(n.as_str());
                s.append(" and control.");
                s.append(p.as_str());
                s.append(" both claim LED slot ");
                push_dec(&mut s, *l as u64);
            },
            ProfileError::LedInBlock(n, l) => {
                s.append("control.");
                s.append(n.as_str());
                s.append(": LED slot ");
                push_dec(&mut s, *l as u64);
                s.append(" is inside the pad or touch strip block");
            },
        }
        assert(s@ =~= self@.text());
        s
    }
}

/// The first of the entries `i..n` that is a button on `bit`, or `n`.
pub open spec fn first_on_bit(e: Seq<(String, Control)>, bit: usize, i: int, n: int) -> int
    decreases n - i,
{
    if i >= n {
        n
    } else if e[i].1.claims_bit(bit) {
        i
    } else {
        first_on_bit(e, bit, i + 1, n)
    }
}

/// The first of the entries `i..n` with that LED slot, or `n`.
pub open spec fn first_on_led(e: Seq<(String, Control)>, led: usize, i: int, n: int) -> int
    decreases n - i,
{
    if i >= n {
        n
    } else if e[i].1.claims_led(led) {
        i
    } else {
        first_on_led(e, led, i + 1, n)
    }
}

pub(crate) proof fn lemma_first_on_bit(e: Seq<(String, Control)>, bit: usize, i: int, n: int)
    requires
        i <= n,
    ensures
        i <= first_on_bit(e, bit, i, n) <= n,
        first_on_bit(e, bit, i, n) < n ==> e[first_on_bit(e, bit, i, n)].1.claims_bit(bit),
        forall|k: int|
            i <= k < first_on_bit(e, bit, i, n) ==> !(#[trigger] e[k]).1.claims_bit(bit),
    decreases n - i,
{
    if i < n && !e[i].1.claims_bit(bit) {
        lemma_first_on_bit(e, bit, i + 1, n);
    }
}

proof fn lemma_first_on_led(e: Seq<(String, Control)>, led: usize, i: int, n: int)
    requires
        i <= n,
    ensures
        i <= first_on_led(e, led, i, n) <= n,
        first_on_led(e, led, i, n) < n ==> e[first_on_led(e, led, i, n)].1.claims_led(led),
        forall|k: int|
            i <= k < first_on_led(e, led, i, n) ==> !(#[trigger] e[k]).1.claims_led(led),
    decreases n - i,
{
    if i < n && !e[i].1.claims_led(led) {
        lemma_first_on_led(e, led, i + 1, n);
    }
}

impl Layout {
    /// One past the last LED slot of the pads.
    pub open spec fn pad_led_end(self) -> int {
        self.pad_led_base + self.pads
    }

    /// One past the last LED slot of the touch strip.
    pub open spec fn strip_led_end(self) -> int {
        self.strip_led_base + self.strip_leds
    }

    /// Whether a slot lies in one of the two blocks that are painted wholesale.
    pub open spec fn in_block(self, led: usize) -> bool {
        self.pad_led_base <= led < self.pad_led_end() || self.strip_led_base <= led
            < self.strip_led_end()
    }

    /// What is wrong with the layout, on a device of `leds` LED slots.
    pub open spec fn fault(self, leds: nat) -> Option<ProfileFault> {
        if self.button_bits % 8 != 0 {
            Some(ProfileFault::BitsNotBytes)
        } else if self.pad_led_end() > leds {
            Some(ProfileFault::PadLeds(leds))
        } else if self.strip_led_end() > leds {
            Some(ProfileFault::StripLeds(leds))
        } else if self.strip_analog >= self.analog_count {
            Some(ProfileFault::StripAnalog(self.strip_analog as nat, self.analog_count as nat))
        } else if self.pedal_analog_base >= self.analog_count {
            Some(
                ProfileFault::PedalAnalog(self.pedal_analog_base as nat, self.analog_count as nat),
            )
        } else if self.knob_max == 0 || self.pad_max == 0 || self.strip_max == 0 {
            Some(ProfileFault::FullScale)
        } else if self.pad_led_base < self.strip_led_end() && self.strip_led_base
            < self.pad_led_end() {
            Some(
                ProfileFault::Overlap(
                    self.pad_led_base as nat,
                    self.pad_led_end() as nat,
                    self.strip_led_base as nat,
                    self.strip_led_end() as nat,
                ),
            )
        } else {
            None
        }
    }

    /// Reject a layout that the driver could not act on.
    fn check(&self, leds: usize) -> (r: Result<(), ProfileError>)
        ensures
            match r {
                Ok(()) => self.fault(leds as nat) is None,
                Err(e) => self.fault(leds as nat) == Some(e@),
            },
    {
        if self.button_bits % 8 != 0 {
            return Err(ProfileError::BitsNotBytes);
        }
        if self.pads > leds || self.pad_led_base > leds - self.pads {
            return Err(ProfileError::PadLeds(leds));
        }
        if self.strip_leds > leds || self.strip_led_base > leds - self.strip_leds {
            return Err(ProfileError::StripLeds(leds));
        }
        if self.strip_analog >= self.analog_count {
            return Err(ProfileError::StripAnalog(self.strip_analog, self.analog_count));
        }
        if self.pedal_analog_base >= self.analog_count {
            return Err(ProfileError::PedalAnalog(self.pedal_analog_base, self.analog_count));
        }
        if self.knob_max == 0 || self.pad_max == 0 || self.strip_max == 0 {
            return Err(ProfileError::FullScale);
        }
        // The pad and strip blocks are painted wholesale, so they must not overlap each other
        // either.
        let pad_end: usize = self.pad_led_base + self.pads;
        let strip_end: usize = self.strip_led_base + self.strip_leds;
        if self.pad_led_base < strip_end && self.strip_led_base < pad_end {
            return Err(
                ProfileError::Overlap(self.pad_led_base, pad_end, self.strip_led_base, strip_end),
            );
        }
        Ok(())
    }
}

impl Profile {
    /// The controls with their names, in the order of the names.
    pub open spec fn controls(self) -> Seq<(String, Control)> {
        self.control.entries()
    }

    /// What is wrong with the bit of control `i`.
    pub open spec fn bit_fault(self, i: int) -> Option<ProfileFault> {
        let e = self.controls();
        let (name, c) = e[i];
        if !(c.kind is Button) {
            None
        } else {
            match c.bit {
                None => Some(ProfileFault::NoBit(name@)),
                Some(bit) => {
                    let prev = first_on_bit(e, bit, 0, i);
                    if bit >= self.layout.button_bits {
                        Some(
                            ProfileFault::BitRange(
                                name@,
                                bit as nat,
                                self.layout.button_bits as nat,
                            ),
                        )
                    } else if prev < i {
                        Some(ProfileFault::BitClash(name@, e[prev].0@, bit as nat))
                    } else {
                        None
                    }
                },
            }
        }
    }

    /// What is wrong with the LED slot of control `i`.
    pub open spec fn led_fault(self, i: int) -> Option<ProfileFault> {
        let e = self.controls();
        let (name, c) = e[i];
        match c.led {
            None => None,
            Some(led) => {
                let prev = first_on_led(e, led, 0, i);
                if led >= self.report.slots() {
                    Some(ProfileFault::LedRange(name@, led as nat, self.report.slots()))
                } else if prev < i {
                    Some(ProfileFault::LedClash(name@, e[prev].0@, led as nat))
                } else if self.layout.in_block(led) {
                    Some(ProfileFault::LedInBlock(name@, led as nat))
                } else {
                    None
                }
            },
        }
    }

    /// The first thing wrong with the controls from `i` on.
    pub open spec fn controls_fault(self, i: int) -> Option<ProfileFault>
        decreases self.controls().len() - i,
    {
        if i >= self.controls().len() {
            None
        } else if self.bit_fault(i) is Some {
            self.bit_fault(i)
        } else if self.led_fault(i) is Some {
            self.led_fault(i)
        } else {
            self.controls_fault(i + 1)
        }
    }

    /// The first thing wrong with the profile: the layout first, then the controls in the order
    /// of their names.
    pub open spec fn fault(self) -> Option<ProfileFault> {
        match self.layout.fault(self.report.slots()) {
            Some(f) => Some(f),
            None => self.controls_fault(0),
        }
    }

    /// A profile that the driver can act on.
    pub open spec fn valid(self) -> bool {
        self.fault() is None
    }

    /// Reject a profile the driver could not act on.
    pub fn validate(&self) -> (r: Result<(), ProfileError>)
        requires
            self.report.slots() <= usize::MAX,
        ensures
            match r {
                Ok(()) => self.fault() is None,
                Err(e) => self.fault() == Some(e@),
            },
    {
        let leds: usize = self.report.led_count();
        match self.layout.check(leds) {
            Ok(()) => {},
            Err(e) => {
                return Err(e);
            },
        }
        let mut i: usize = 0;
        while i < self.control.len()
            invariant
                i <= self.controls().len(),
                self.fault() == self.controls_fault(i as int),
                leds == self.report.slots(),
                self.layout.fault(leds as nat) is None,
            decreases self.controls().len() - i,
        {
            match self.check_bit(i) {
                Ok(()) => {},
                Err(e) => {
                    return Err(e);
                },
            }
            match self.check_led(i, leds) {
                Ok(()) => {},
                Err(e) => {
                    return Err(e);
                },
            }
            i += 1;
        }
        Ok(())
    }

    fn check_bit(&self, i: usize) -> (r: Result<(), ProfileError>)
        requires
            i < self.controls().len(),
        ensures
            match r {
                Ok(()) => self.bit_fault(i as int) is None,
                Err(e) => self.bit_fault(i as int) == Some(e@),
            },
    {
        let c = self.control.value(i);
        if c.kind != ControlKind::Button {
            return Ok(());
        }
        let name = self.control.key(i);
        match c.bit {
            None => Err(ProfileError::NoBit(name.clone())),
            Some(bit) => {
                if bit >= self.layout.button_bits {
                    return Err(ProfileError::BitRange(name.clone(), bit, self.layout.button_bits));
                }
                match self.find_bit(bit, i) {
                    Some(j) => Err(
                        ProfileError::BitClash(name.clone(), self.control.key(j).clone(), bit),
                    ),
                    None => Ok(()),
                }
            },
        }
    }

    fn check_led(&self, i: usize, leds: usize) -> (r: Result<(), ProfileError>)
        requires
            i < self.controls().len(),
            leds == self.report.slots(),
            self.layout.fault(leds as nat) is None,
        ensures
            match r {
                Ok(()) => self.led_fault(i as int) is None,
                Err(e) => self.led_fault(i as int) == Some(e@),
            },
    {
        let c = self.control.value(i);
        let name = self.control.key(i);
        match c.led {
            None => Ok(()),
            Some(led) => {
                if led >= leds {
                    return Err(ProfileError::LedRange(name.clone(), led, leds));
                }
                match self.find_led(led, i) {
                    Some(j) => {
                        return Err(
                            ProfileError::LedClash(name.clone(), self.control.key(j).clone(), led),
                        );
                    },
                    None => {},
                }
                // A slot inside a block the driver paints wholesale would be overwritten on every
                // repaint, which is confusing to debug.
                let l = &self.layout;
                if (l.pad_led_base <= led && led < l.pad_led_base + l.pads) || (l.strip_led_base
                    <= led && led < l.strip_led_base + l.strip_leds) {
                    return Err(ProfileError::LedInBlock(name.clone(), led));
                }
                Ok(())
            },
        }
    }

    /// The first of the first `n` controls that is a button on `bit`.
    fn find_bit(&self, bit: usize, n: usize) -> (r: Option<usize>)
        requires
            n <= self.controls().len(),
        ensures
            match r {
                Some(j) => j == first_on_bit(self.controls(), bit, 0, n as int) && j < n,
                None => first_on_bit(self.controls(), bit, 0, n as int) == n,
            },
    {
        let mut j: usize = 0;
        while j < n
            invariant
                j <= n <= self.controls().len(),
                first_on_bit(self.controls(), bit, 0, n as int) == first_on_bit(
                    self.controls(),
                    bit,
                    j as int,
                    n as int,
                ),
            decreases n - j,
        {
            let c = self.control.value(j);
            if c.kind == ControlKind::Button {
                if let Some(b) = c.bit {
                    if b == bit {
                        return Some(j);
                    }
                }
            }
            j += 1;
        }
        None
    }

    /// The first of the first `n` controls with that LED slot.
    fn find_led(&self, led: usize, n: usize) -> (r: Option<usize>)
        requires
            n <= self.controls().len(),
        ensures
            match r {
                Some(j) => j == first_on_led(self.controls(), led, 0, n as int) && j < n,
                None => first_on_led(self.controls(), led, 0, n as int) == n,
            },
    {
        let mut j: usize = 0;
        while j < n
            invariant
                j <= n <= self.controls().len(),
                first_on_led(self.controls(), led, 0, n as int) == first_on_led(
                    self.controls(),
                    led,
                    j as int,
                    n as int,
                ),
            decreases n - j,
        {
            if let Some(l) = self.control.value(j).led {
                if l == led {
                    return Some(j);
                }
            }
            j += 1;
        }
        None
    }

    /// Look up a control by name.
    pub fn get(&self, name: &str) -> (r: Option<&Control>)
        ensures
            match r {
                Some(c) => lookup(self.controls(), name@) == Some(*c),
                None => lookup(self.controls(), name@) is None,
            },
    {
        self.control.get(name)
    }

    /// The button occupying `bit`: the first by name, where a profile that was not validated has
    /// more than one.
    pub fn button_at_bit(&self, bit: usize) -> (r: Option<(&String, &Control)>)
        ensures
            ({
                let n = self.controls().len() as int;
                let i = first_on_bit(self.controls(), bit, 0, n);
                match r {
                    Some((name, c)) => i < n && self.controls()[i] == (*name, *c),
                    None => i == n,
                }
            }),
    {
        match self.find_bit(bit, self.control.len()) {
            Some(i) => Some((self.control.key(i), self.control.value(i))),
            None => None,
        }
    }

    /// The control owning LED slot `led`.
    pub fn control_at_led(&self, led: usize) -> (r: Option<(&String, &Control)>)
        ensures
            ({
                let n = self.controls().len() as int;
                let i = first_on_led(self.controls(), led, 0, n);
                match r {
                    Some((name, c)) => i < n && self.controls()[i] == (*name, *c),
                    None => i == n,
                }
            }),
    {
        match self.find_led(led, self.control.len()) {
            Some(i) => Some((self.control.key(i), self.control.value(i))),
            None => None,
        }
    }

    /// The places of the buttons among the first `n` controls.
    pub open spec fn buttons_to(self, n: int) -> Seq<usize>
        decreases n,
    {
        if n <= 0 {
            Seq::empty()
        } else if self.controls()[n - 1].1.kind is Button {
            self.buttons_to(n - 1).push((n - 1) as usize)
        } else {
            self.buttons_to(n - 1)
        }
    }

    /// The places of the controls with a panel position among the first `n`.
    pub open spec fn placed_to(self, n: int) -> Seq<usize>
        decreases n,
    {
        if n <= 0 {
            Seq::empty()
        } else if self.controls()[n - 1].1.x is Some {
            self.placed_to(n - 1).push((n - 1) as usize)
        } else {
            self.placed_to(n - 1)
        }
    }

    /// Every button: its place among the controls, in the order of the names.
    pub fn buttons(&self) -> (r: Vec<usize>)
        ensures
            r@ == self.buttons_to(self.controls().len() as int),
    {
        let mut out: Vec<usize> = Vec::new();
        let mut i: usize = 0;
        while i < self.control.len()
            invariant
                i <= self.controls().len(),
                out@ == self.buttons_to(i as int),
            decreases self.controls().len() - i,
        {
            if self.control.value(i).kind == ControlKind::Button {
                out.push(i);
            }
            i += 1;
        }
        out
    }

    /// Controls that have a panel position, for the map: their places among the controls.
    pub fn placed(&self) -> (r: Vec<usize>)
        ensures
            r@ == self.placed_to(self.controls().len() as int),
    {
        let mut out: Vec<usize> = Vec::new();
        let mut i: usize = 0;
        while i < self.control.len()
            invariant
                i <= self.controls().len(),
                out@ == self.placed_to(i as int),
            decreases self.controls().len() - i,
        {
            if self.control.value(i).x.is_some() {
                out.push(i);
            }
            i += 1;
        }
        out
    }

    proof fn lemma_no_control_fault(self, i: int, k: int)
        requires
            self.controls_fault(i) is None,
            0 <= i <= k < self.controls().len(),
        ensures
            self.bit_fault(k) is None,
            self.led_fault(k) is None,
        decreases self.controls().len() - i,
    {
        if i < k {
            self.lemma_no_control_fault(i + 1, k);
        }
    }

    /// In a valid profile every button has a bit of its own within the field.
    pub proof fn law_bits_are_distinct(self, i: int, j: int)
        requires
            self.valid(),
            0 <= i < j < self.controls().len(),
            self.controls()[i].1.kind is Button,
            self.controls()[j].1.kind is Button,
        ensures
            self.controls()[i].1.bit is Some,
            self.controls()[i].1.bit->0 < self.layout.button_bits,
            self.controls()[i].1.bit != self.controls()[j].1.bit,
    {
        self.lemma_no_control_fault(0, i);
        self.lemma_no_control_fault(0, j);
        let bit = self.controls()[j].1.bit->0;
        lemma_first_on_bit(self.controls(), bit, 0, j);
    }

    /// In a valid profile every lit control has an LED slot of its own that exists and lies
    /// outside the pad and touch strip blocks.
    pub proof fn law_leds_are_distinct(self, i: int, j: int)
        requires
            self.valid(),
            0 <= i < j < self.controls().len(),
            self.controls()[i].1.led is Some,
            self.controls()[j].1.led is Some,
        ensures
            self.controls()[i].1.led->0 < self.report.slots(),
            !self.layout.in_block(self.controls()[i].1.led->0),
            self.controls()[i].1.led != self.controls()[j].1.led,
    {
        self.lemma_no_control_fault(0, i);
        self.lemma_no_control_fault(0, j);
        let led = self.controls()[j].1.led->0;
        lemma_first_on_led(self.controls(), led, 0, j);
    }

    /// In a valid profile every LED slot of a control exists.
    pub proof fn law_leds_exist(self, i: int)
        requires
            self.valid(),
            0 <= i < self.controls().len(),
            self.controls()[i].1.led is Some,
        ensures
            self.controls()[i].1.led->0 < self.report.slots(),
            !self.layout.in_block(self.controls()[i].1.led->0),
    {
        self.lemma_no_control_fault(0, i);
    }

    /// In a valid profile the analog fields of the touch strip and of the pedals exist.
    pub proof fn law_analog_fields_exist(self)
        requires
            self.valid(),
        ensures
            self.layout.strip_analog < self.layout.analog_count,
            self.layout.pedal_analog_base < self.layout.analog_count,
    {
    }

    /// In a valid profile the pad block and the strip block lie within the LED slots, and no slot
    /// is in both.
    pub proof fn law_blocks_are_disjoint(self, led: usize)
        requires
            self.valid(),
        ensures
            self.layout.in_block(led) ==> led < self.report.slots(),
            !(self.layout.pad_led_base <= led < self.layout.pad_led_end()
                && self.layout.strip_led_base <= led < self.layout.strip_led_end()),
    {
    }

    /// In a valid profile the button found at a bit is the only one there.
    pub proof fn law_button_at_bit_is_the_only_one(self, bit: usize, i: int)
        requires
            self.valid(),
            0 <= i < self.controls().len(),
            self.controls()[i].1.claims_bit(bit),
        ensures
            first_on_bit(self.controls(), bit, 0, self.controls().len() as int) == i,
    {
        let n = self.controls().len() as int;
        lemma_first_on_bit(self.controls(), bit, 0, n);
        let j = first_on_bit(self.controls(), bit, 0, n);
        if j < i {
            self.law_bits_are_distinct(j, i);
        } else if i < j {
            assert(!self.controls()[i].1.claims_bit(bit));
        }
    }
}

impl Profile {
    /// Where a user-supplied profile would live.
    pub fn default_path(xdg: &Option<String>, home: &Option<String>) -> (r: String)
        ensures
            r@ == in_dir(
                in_dir(dir_of(maybe_view(*xdg), maybe_view(*home)), "devices"@),
                "maschine-mk3.toml"@,
            ),
    {
        let dir = config_dir(xdg, home);
        let devices = join_path(dir.as_str(), "devices");
        join_path(devices.as_str(), "maschine-mk3.toml")
    }
}

// What a profile has to be.

/// LED slots count over all banks: one bank more is its length more.
pub proof fn law_banks_add_up(a: Seq<(u8, usize)>, b: Seq<(u8, usize)>, id: u8, len: usize)
    ensures
        bank_total(a + b) == bank_total(a) + bank_total(b),
        bank_total(seq![(id, len)]) == len,
        bank_total(Seq::empty()) == 0,
    decreases b.len(),
{
    assert(seq![(id, len)].drop_last() =~= Seq::empty());
    assert(bank_total(Seq::<(u8, usize)>::empty()) == 0);
    if b.len() == 0 {
        assert(a + b =~= a);
    } else {
        assert((a + b).drop_last() =~= a + b.drop_last());
        law_banks_add_up(a, b.drop_last(), id, len);
    }
}

impl Profile {
    /// Control `i` can be acted on: a button has a bit that exists and that no button before it has,
    /// and a light has a slot that exists, that no control before it has, and that is of neither the
    /// pads nor the strip.
    pub open spec fn sound(self, i: int) -> bool {
        let l = self.layout;
        let c = self.controls()[i].1;
        &&& c.kind is Button ==> (c.bit matches Some(b) && b < l.button_bits && forall|j: int|
            0 <= j < i && (#[trigger] self.controls()[j]).1.kind is Button
                ==> self.controls()[j].1.bit != Some(b))
        &&& (c.led matches Some(s) ==> s < self.report.slots() && !(l.pad_led_base <= s
            < l.pad_led_base + l.pads) && !(l.strip_led_base <= s < l.strip_led_base + l.strip_leds)
            && forall|j: int| 0 <= j < i ==> (#[trigger] self.controls()[j]).1.led != Some(s))
    }

    proof fn lemma_sound(self, i: int)
        requires
            0 <= i < self.controls().len(),
        ensures
            self.sound(i) <==> self.bit_fault(i) is None && self.led_fault(i) is None,
    {
        let e = self.controls();
        let c = e[i].1;
        if let Some(b) = c.bit {
            lemma_first_on_bit(e, b, 0, i);
            let j = first_on_bit(e, b, 0, i);
            if j < i {
                assert(e[j].1.claims_bit(b));
            } else {
                assert forall|k: int| 0 <= k < i && (#[trigger] e[k]).1.kind is Button implies e[k].1.bit
                    != Some(b) by {
                    assert(!e[k].1.claims_bit(b));
                }
            }
        }
        if let Some(s) = c.led {
            lemma_first_on_led(e, s, 0, i);
            let j = first_on_led(e, s, 0, i);
            if j < i {
                assert(e[j].1.claims_led(s));
            } else {
                assert forall|k: int| 0 <= k < i implies (#[trigger] e[k]).1.led != Some(s) by {
                    assert(!e[k].1.claims_led(s));
                }
            }
        }
    }

    proof fn lemma_all_sound(self, i: int)
        requires
            0 <= i,
        ensures
            self.controls_fault(i) is None <==> (forall|k: int|
                i <= k < self.controls().len() ==> #[trigger] self.sound(k)),
        decreases self.controls().len() - i,
    {
        if i < self.controls().len() {
            self.lemma_all_sound(i + 1);
            self.lemma_sound(i);
        }
    }

    /// A profile is accepted if, and only if, its layout is within what the device has and every one
    /// of its controls can be acted on.
    pub proof fn law_sound_profiles_are_accepted(self)
        ensures
            self.valid() <==> {
                let l = self.layout;
                &&& l.button_bits % 8 == 0
                &&& l.pad_led_base + l.pads <= self.report.slots()
                &&& l.strip_led_base + l.strip_leds <= self.report.slots()
                &&& l.strip_analog < l.analog_count
                &&& l.pedal_analog_base < l.analog_count
                &&& l.knob_max > 0 && l.pad_max > 0 && l.strip_max > 0
                &&& l.pad_led_base + l.pads <= l.strip_led_base || l.strip_led_base + l.strip_leds
                    <= l.pad_led_base
                &&& forall|k: int| 0 <= k < self.controls().len() ==> #[trigger] self.sound(k)
            },
    {
        self.lemma_all_sound(0);
    }

    /// A fault with a control names one that cannot be acted on, and two controls that clash by both
    /// of their names.
    pub proof fn law_a_fault_names_the_control(self, i: int)
        requires
            0 <= i < self.controls().len(),
        ensures
            self.bit_fault(i) matches Some(f) ==> !self.sound(i) && match f {
                ProfileFault::NoBit(n) => n == self.controls()[i].0@ && self.controls()[i].1.bit is None,
                ProfileFault::BitRange(n, b, m) => n == self.controls()[i].0@ && b >= m && m
                    == self.layout.button_bits,
                ProfileFault::BitClash(n, o, b) => n == self.controls()[i].0@ && exists|j: int|
                    0 <= j < i && (#[trigger] self.controls()[j]).0@ == o
                        && self.controls()[j].1.bit == self.controls()[i].1.bit,
                _ => false,
            },
            self.led_fault(i) matches Some(f) ==> !self.sound(i) && match f {
                ProfileFault::LedRange(n, s, m) => n == self.controls()[i].0@ && s >= m && m
                    == self.report.slots(),
                ProfileFault::LedClash(n, o, s) => n == self.controls()[i].0@ && exists|j: int|
                    0 <= j < i && (#[trigger] self.controls()[j]).0@ == o
                        && self.controls()[j].1.led == self.controls()[i].1.led,
                ProfileFault::LedInBlock(n, s) => n == self.controls()[i].0@ && (
                self.controls()[i].1.led matches Some(l) && l == s),
                _ => false,
            },
    {
        self.lemma_sound(i);
        let e = self.controls();
        let c = e[i].1;
        if let Some(b) = c.bit {
            lemma_first_on_bit(e, b, 0, i);
            assert(e[first_on_bit(e, b, 0, i)].0@ == e[first_on_bit(e, b, 0, i)].0@);
        }
        if let Some(s) = c.led {
            lemma_first_on_led(e, s, 0, i);
            assert(e[first_on_led(e, s, 0, i)].0@ == e[first_on_led(e, s, 0, i)].0@);
        }
    }

    /// The buttons are the controls of that kind, and the placed ones those with a position, each of
    /// them once and in the order of the names.
    pub proof fn law_lists_are_complete(self, n: int, i: int)
        requires
            0 <= i < n <= self.controls().len() <= usize::MAX,
        ensures
            self.buttons_to(n).contains(i as usize) <==> self.controls()[i].1.kind is Button,
            self.placed_to(n).contains(i as usize) <==> self.controls()[i].1.x is Some,
            forall|k: int, l: int|
                0 <= k < l < self.buttons_to(n).len() ==> #[trigger] self.buttons_to(n)[k]
                    < #[trigger] self.buttons_to(n)[l],
            forall|k: int, l: int|
                0 <= k < l < self.placed_to(n).len() ==> #[trigger] self.placed_to(n)[k]
                    < #[trigger] self.placed_to(n)[l],
    {
        self.lemma_lists(n);
        let (b, p) = (self.buttons_to(n), self.placed_to(n));
        if b.contains(i as usize) {
            let k = b.index_of(i as usize);
            assert(b[k] == i as usize);
        }
        if p.contains(i as usize) {
            let k = p.index_of(i as usize);
            assert(p[k] == i as usize);
        }
    }

    proof fn lemma_lists(self, n: int)
        requires
            0 <= n <= self.controls().len() <= usize::MAX,
        ensures
            forall|k: int|
                0 <= k < self.buttons_to(n).len() ==> #[trigger] self.buttons_to(n)[k] < n
                    && self.controls()[self.buttons_to(n)[k] as int].1.kind is Button,
            forall|k: int|
                0 <= k < self.placed_to(n).len() ==> #[trigger] self.placed_to(n)[k] < n
                    && self.controls()[self.placed_to(n)[k] as int].1.x is Some,
            forall|k: int, l: int|
                0 <= k < l < self.buttons_to(n).len() ==> #[trigger] self.buttons_to(n)[k]
                    < #[trigger] self.buttons_to(n)[l],
            forall|k: int, l: int|
                0 <= k < l < self.placed_to(n).len() ==> #[trigger] self.placed_to(n)[k]
                    < #[trigger] self.placed_to(n)[l],
            forall|i: int|
                0 <= i < n && (#[trigger] self.controls()[i]).1.kind is Button ==> self.buttons_to(
                    n,
                ).contains(i as usize),
            forall|i: int|
                0 <= i < n && (#[trigger] self.controls()[i]).1.x is Some ==> self.placed_to(
                    n,
                ).contains(i as usize),
        decreases n,
    {
        if n > 0 {
            self.lemma_lists(n - 1);
            let (b, p) = (self.buttons_to(n - 1), self.placed_to(n - 1));
            let (c, q) = (self.buttons_to(n), self.placed_to(n));
            assert forall|i: int|
                0 <= i < n && (#[trigger] self.controls()[i]).1.kind is Button implies c.contains(
                i as usize,
            ) by {
                if i < n - 1 {
                    assert(b.contains(i as usize));
                    let k = b.index_of(i as usize);
                    assert(c[k] == i as usize);
                } else {
                    assert(c.last() == i as usize);
                }
            }
            assert forall|i: int|
                0 <= i < n && (#[trigger] self.controls()[i]).1.x is Some implies q.contains(
                i as usize,
            ) by {
                if i < n - 1 {
                    assert(p.contains(i as usize));
                    let k = p.index_of(i as usize);
                    assert(q[k] == i as usize);
                } else {
                    assert(q.last() == i as usize);
                }
            }
        }
    }

    /// The control of a light is the one that has its slot.
    pub proof fn law_the_control_at_a_light_has_it(self, led: usize, i: int)
        requires
            self.valid(),
            0 <= i < self.controls().len(),
            self.controls()[i].1.led == Some(led),
        ensures
            first_on_led(self.controls(), led, 0, self.controls().len() as int) == i,
    {
        let n = self.controls().len() as int;
        lemma_first_on_led(self.controls(), led, 0, n);
        let j = first_on_led(self.controls(), led, 0, n);
        assert(self.controls()[i].1.claims_led(led));
        if j < i {
            self.law_leds_are_distinct(j, i);
        } else if i < j {
            assert(!self.controls()[i].1.claims_led(led));
        }
    }
}

} // verus!
