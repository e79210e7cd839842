//! The configuration file.
//!
//! Everything the driver does to a control (what MIDI it emits, how its LED behaves, how velocity
//! is shaped) comes from here. The file is plain TOML, hand-editable, and reloaded when it changes
//! on disk.
use crate::edit::{distance, edit_distance_at_most};
use crate::hid::{KNOBS, PADS};
use crate::midi::Msg;
use crate::namemap::{lemma_position, lookup, position, NameMap};
use crate::profile::{Control, Profile};
use crate::single::{
    law_curves_are_ordered, law_full_scale, law_shaped_grows, shape, shaped, Bend,
};
use crate::text::{
    chars_of, contains, dec, in_dir, join_path, joined, law_decimal_reads_back, lemma_before_strict, occurs, parse_uint,
    push_dec, push_joined, read_uint, same, split_words, views, words,
};
use vstd::prelude::*;

verus! {

/// LED slot of pad 0.
///
/// The 103 LED slots are 62 button slots (output report `0x80`) followed by 41 more (report
/// `0x81`): the 25 touch strip LEDs first, then the 16 pads.
pub const PAD_LED_BASE: usize = 87;

/// LED slot of the touch strip's first LED.
pub const STRIP_LED_BASE: usize = 62;

/// Number of LEDs in the touch strip.
pub const STRIP_LEDS: usize = 25;

/// Note numbers for [`PadCfg::notes`] laid out so the bottom-left pad is lowest.
///
/// The device numbers its pads in reading order: HID pad 0 is the **top** left pad. Drum mapping
/// convention runs the other way, with the lowest note bottom left, so the default is transposed
/// rather than a plain ascending run.
///
/// Indexed by HID pad index: the top row first, the bottom row last.
pub const NOTES_BOTTOM_LEFT: [u8; PADS] = [
    48, 49, 50, 51, 44, 45, 46, 47, 40, 41, 42, 43, 36, 37, 38, 39,
];

/// Top-level configuration.
#[derive(Debug, Clone)]
pub struct Config {
    /// Where this set of settings came from, and what it is for.
    ///
    /// Optional: a config written by hand needs no header. It is filled in when the file is saved
    /// as a preset, so a file passed to someone else says what it is.
    pub preset: Option<PresetInfo>,
    /// Process-wide settings.
    pub general: General,
    /// Display behaviour.
    pub display: DisplayCfg,
    /// Global LED behaviour.
    pub leds: LedCfg,
    /// The 16 pads.
    pub pads: PadCfg,
    /// The 8 knobs under the displays.
    pub knobs: KnobCfg,
    /// The 4-D push encoder.
    pub encoder: EncoderCfg,
    /// The touch strip.
    pub touchstrip: StripCfg,
    /// The rear pedal jack.
    pub pedal: PedalCfg,
    /// What each named control should send, keyed by its name in the device profile.
    pub buttons: NameMap<Binding>,
}

/// What a preset file calls itself.
#[derive(Debug, Clone)]
pub struct PresetInfo {
    /// Short name, matching the file name.
    pub name: String,
    /// One line saying what it is for. Shown in the chooser.
    pub description: String,
    /// Who made it, for a preset that came from someone else.
    pub author: String,
}

/// Process-wide settings.
#[derive(Debug, Clone)]
pub struct General {
    /// ALSA sequencer client name.
    pub client_name: String,
    /// Name of the port a DAW reads from.
    pub out_port: String,
    /// Name of the port a DAW writes to for feedback.
    pub in_port: String,
    /// `SCHED_FIFO` priority for the input thread; 0 disables real-time.
    pub realtime_priority: i32,
    /// Whether to `mlockall`, avoiding page faults in the input path.
    pub lock_memory: bool,
    /// TCP port for the browser-based configuration page; 0 disables it.
    pub gui_port: u16,
    /// Address the GUI listens on. Loopback by default.
    pub gui_bind: String,
    /// Sequencer destinations to connect our output to at startup.
    ///
    /// Matching is case-insensitive on a substring of `client:port`. Empty means connect to
    /// nothing and wait to be subscribed.
    pub connect_to: Vec<String>,
}

/// Display behaviour.
#[derive(Debug, Clone)]
pub struct DisplayCfg {
    /// Whether to drive the screens at all.
    pub enabled: bool,
    /// Backlight, 0..=100.
    pub brightness: u8,
    /// Contrast, 0..=100.
    pub contrast: u8,
    /// Redraw ceiling. The screens are cosmetic; capping them keeps the bulk endpoint from
    /// competing with input for USB bandwidth.
    pub fps: u32,
    /// Text shown on the left screen's title bar.
    pub title: String,
}

/// Global LED behaviour.
#[derive(Debug, Clone)]
pub struct LedCfg {
    /// Whether to drive LEDs at all.
    pub enabled: bool,
    /// Brightness of an unlit button, 0..=127.
    pub button_idle: u8,
    /// Brightness of a held button, 0..=127.
    pub button_active: u8,
    /// Ceiling on LED report rate.
    pub fps: u32,
}

/// How a pad hit becomes velocity.
#[derive(Debug, Clone, Copy, PartialEq, Eq, Structural)]
pub enum Curve {
    /// Straight scaling of the 12-bit value.
    Linear,
    /// Expands the quiet end; easier to play softly.
    Soft,
    /// Compresses the quiet end; needs a firmer hit.
    Hard,
    /// Ignore how hard the pad was struck.
    Fixed,
}

impl Curve {
    /// How a reading is bent by the curve.
    pub open spec fn bend(self) -> Bend {
        match self {
            Curve::Linear | Curve::Fixed => Bend::Straight,
            Curve::Soft => Bend::Root,
            Curve::Hard => Bend::Square,
        }
    }

    fn to_bend(self) -> (r: Bend)
        ensures
            r == self.bend(),
    {
        match self {
            Curve::Linear | Curve::Fixed => Bend::Straight,
            // Square root lifts quiet hits, square pushes them down.
            Curve::Soft => Bend::Root,
            Curve::Hard => Bend::Square,
        }
    }
}

/// Aftertouch handling.
#[derive(Debug, Clone, Copy, PartialEq, Eq, Structural)]
pub enum Aftertouch {
    /// Discard pressure data.
    Off,
    /// One pressure stream per pad (polyphonic key pressure).
    Poly,
    /// A single channel pressure stream, driven by the hardest-pressed pad.
    Channel,
}

/// The 16 pads.
#[derive(Debug, Clone)]
pub struct PadCfg {
    /// MIDI channel, 1..=16.
    pub channel: u8,
    /// Note number for each pad, in hardware order (pad 0 first).
    pub notes: Vec<u8>,
    /// Velocity shaping.
    pub curve: Curve,
    /// Velocity used when `curve = "fixed"`.
    pub fixed_velocity: u8,
    /// Raw hit value that maps to velocity 127.
    ///
    /// The pads report 12 bits but do not use the range: on a real MK3 a hard hit lands around
    /// 1900 and ordinary playing sits between 200 and 1400. The default is set where the hardware
    /// actually tops out.
    pub velocity_max: u16,
    /// Raw pressure value that maps to aftertouch 127.
    ///
    /// Unlike strike velocity, pressure really does use the whole 12-bit range.
    pub aftertouch_max: u16,
    /// Shaping applied to pressure, separate from the strike curve.
    ///
    /// Pressure is steeply non-linear: it loiters low through most of the comfortable range and
    /// only then climbs, so the default lifts the quiet end.
    pub aftertouch_curve: Curve,
    /// Ignore hits below this 12-bit value; suppresses crosstalk from neighbouring pads.
    pub threshold: u16,
    /// Pressure handling.
    pub aftertouch: Aftertouch,
    /// Pressure below this 12-bit value is not transmitted.
    pub aftertouch_floor: u16,
    /// Emit a note when a finger rests on a pad without striking it.
    pub press_sends_note: bool,
    /// Palette index of an idle pad.
    pub idle_colour: u8,
    /// Palette index of a struck pad.
    pub active_colour: u8,
    /// Brightness step of an idle pad, 0..=3.
    pub idle_level: u8,
}

pub open spec fn min_int(a: int, b: int) -> int {
    if a <= b {
        a
    } else {
        b
    }
}

pub open spec fn max_int(a: int, b: int) -> int {
    if a >= b {
        a
    } else {
        b
    }
}

pub open spec fn clamp_int(v: int, lo: int, hi: int) -> int {
    if v < lo {
        lo
    } else if v > hi {
        hi
    } else {
        v
    }
}

impl PadCfg {
    /// The reach of pressure above the floor.
    pub open spec fn span(self) -> nat {
        max_int(self.aftertouch_max - self.aftertouch_floor, 1) as nat
    }

    /// The aftertouch value of a pressure reading: 0 up to the floor, and above it the part of the
    /// span that is reached, shaped by the curve.
    pub open spec fn pressure_of(self, raw: u16) -> nat {
        if raw <= self.aftertouch_floor {
            0
        } else {
            shaped(
                min_int(raw - self.aftertouch_floor, self.span() as int) as nat,
                self.span(),
                self.aftertouch_curve.bend(),
            )
        }
    }

    /// The velocity of a hit: the part of full scale that is reached, shaped by the curve, and at
    /// least 1.
    pub open spec fn velocity_of(self, raw: u16) -> int {
        if self.curve is Fixed {
            clamp_int(self.fixed_velocity as int, 1, 127)
        } else {
            let full = max_int(self.velocity_max as int, 1);
            clamp_int(
                shaped(min_int(raw as int, full) as nat, full as nat, self.curve.bend()) as int,
                1,
                127,
            )
        }
    }

    /// Map a raw pressure reading to a 7-bit aftertouch value.
    ///
    /// Returns 0 below the floor, so a resting hand stops transmitting rather than idling at some
    /// small non-zero pressure.
    pub fn pressure(&self, raw: u16) -> (r: u8)
        ensures
            r == self.pressure_of(raw),
            r <= 127,
    {
        if raw <= self.aftertouch_floor {
            return 0;
        }
        let span: u16 = if self.aftertouch_max > self.aftertouch_floor {
            self.aftertouch_max - self.aftertouch_floor
        } else {
            1
        };
        let above: u16 = raw - self.aftertouch_floor;
        let x: u16 = if above < span {
            above
        } else {
            span
        };
        shape(x, span, self.aftertouch_curve.to_bend())
    }

    /// Map a raw pad reading to a 7-bit velocity, honouring the curve.
    ///
    /// Never returns 0 for a real hit: a zero-velocity note on is a note off.
    pub fn velocity(&self, raw: u16) -> (r: u8)
        ensures
            r == self.velocity_of(raw),
            1 <= r <= 127,
    {
        if self.curve == Curve::Fixed {
            return if self.fixed_velocity < 1 {
                1
            } else if self.fixed_velocity > 127 {
                127
            } else {
                self.fixed_velocity
            };
        }
        let full: u16 = if self.velocity_max < 1 {
            1
        } else {
            self.velocity_max
        };
        let x: u16 = if raw < full {
            raw
        } else {
            full
        };
        let y: u8 = shape(x, full, self.curve.to_bend());
        if y < 1 {
            1
        } else {
            y
        }
    }

    /// Leaning harder never lowers the aftertouch value.
    pub proof fn law_pressure_is_monotonic(self, a: u16, b: u16)
        requires
            a <= b,
        ensures
            self.pressure_of(a) <= self.pressure_of(b),
    {
        if a > self.aftertouch_floor {
            let s = self.span();
            law_shaped_grows(
                min_int(a - self.aftertouch_floor, s as int) as nat,
                min_int(b - self.aftertouch_floor, s as int) as nat,
                s,
                self.aftertouch_curve.bend(),
            );
        }
    }

    /// A harder hit is never quieter.
    pub proof fn law_velocity_is_monotonic(self, a: u16, b: u16)
        requires
            a <= b,
        ensures
            self.velocity_of(a) <= self.velocity_of(b),
    {
        let full = max_int(self.velocity_max as int, 1);
        law_shaped_grows(
            min_int(a as int, full) as nat,
            min_int(b as int, full) as nat,
            full as nat,
            self.curve.bend(),
        );
    }

    /// A reading at or above the value that maps to 127 gives 127, whatever the curve.
    pub proof fn law_full_scale_is_reached(self, raw: u16)
        ensures
            raw >= self.aftertouch_max && self.aftertouch_max > self.aftertouch_floor
                ==> self.pressure_of(raw) == 127,
            raw >= self.velocity_max && self.velocity_max > 0 && !(self.curve is Fixed)
                ==> self.velocity_of(raw) == 127,
    {
        law_full_scale(self.span(), self.aftertouch_curve.bend());
        law_full_scale(max_int(self.velocity_max as int, 1) as nat, self.curve.bend());
    }

    /// On the soft curve a hit is never quieter, and on the hard one never louder, than on the
    /// straight one.
    pub proof fn law_curves_lift_and_lower(self, soft: PadCfg, hard: PadCfg, raw: u16)
        requires
            self.curve is Linear,
            soft.curve is Soft,
            hard.curve is Hard,
            soft.velocity_max == self.velocity_max,
            hard.velocity_max == self.velocity_max,
        ensures
            hard.velocity_of(raw) <= self.velocity_of(raw) <= soft.velocity_of(raw),
    {
        let full = max_int(self.velocity_max as int, 1);
        law_curves_are_ordered(min_int(raw as int, full) as nat, full as nat);
    }
}

/// Knob transmission mode.
#[derive(Debug, Clone, Copy, PartialEq, Eq, Structural)]
pub enum KnobMode {
    /// Send the knob's reported position directly.
    ///
    /// Only meaningful for a control that has end stops. The MK3's knobs do not: they are endless
    /// encoders whose position rolls over from 999 to 0, so this mode makes them jump. Use
    /// [`KnobMode::Accumulate`] instead.
    Absolute,
    /// Send the change since the last report, in a relative CC encoding.
    ///
    /// The host does the integrating, which needs it to be told the encoding.
    Relative,
    /// Integrate movement here and send the running total, clamped at the ends.
    ///
    /// This is what makes an endless encoder behave like a knob with end stops: turning up
    /// eventually reaches 127 and stays there rather than wrapping round to 0.
    Accumulate,
}

/// How a host should read relative CCs.
#[derive(Debug, Clone, Copy, PartialEq, Eq, Structural)]
pub enum RelFormat {
    /// 1 = +1, 127 = -1 (two's complement). Ableton "Relative (Signed Bit 2)".
    Twos,
    /// 65 = +1, 63 = -1 (offset by 64). Ableton "Relative (Bin Offset)".
    BinOffset,
    /// 1 = +1, 65 = -1 (sign in bit 6). Ableton "Relative (Signed Bit)".
    SignBit,
}

impl RelFormat {
    /// The CC value of a step, which counts for at most 63 either way.
    pub open spec fn encoded(self, delta: int) -> int {
        let d = clamp_int(delta, -63, 63);
        match self {
            RelFormat::Twos => if d >= 0 {
                d
            } else {
                128 + d
            },
            RelFormat::BinOffset => 64 + d,
            RelFormat::SignBit => if d >= 0 {
                d
            } else {
                64 - d
            },
        }
    }

    /// The step that a host reads from a CC value.
    pub open spec fn decoded(self, value: int) -> int {
        match self {
            RelFormat::Twos => if value < 64 {
                value
            } else {
                value - 128
            },
            RelFormat::BinOffset => value - 64,
            RelFormat::SignBit => if value < 64 {
                value
            } else {
                64 - value
            },
        }
    }

    /// Encode a signed step as a 7-bit CC value.
    pub fn encode(self, delta: i32) -> (r: u8)
        ensures
            r == self.encoded(delta as int),
            r <= 127,
    {
        let d: i32 = if delta < -63 {
            -63
        } else if delta > 63 {
            63
        } else {
            delta
        };
        match self {
            RelFormat::Twos => if d >= 0 {
                d as u8
            } else {
                (128 + d) as u8
            },
            RelFormat::BinOffset => (64 + d) as u8,
            RelFormat::SignBit => if d >= 0 {
                d as u8
            } else {
                (64 - d) as u8
            },
        }
    }

    /// A host that reads the encoding gets back the step, up to the 63 that it can carry.
    pub proof fn law_steps_read_back(self, delta: int)
        ensures
            self.decoded(self.encoded(delta)) == clamp_int(delta, -63, 63),
    {
    }
}

/// What happens when a knob's position and the host's value disagree.
#[derive(Debug, Clone, Copy, PartialEq, Eq, Structural)]
pub enum Pickup {
    /// Send immediately; the host value jumps to the knob.
    Jump,
    /// Stay silent until the knob passes the last value the host reported.
    Pickup,
}

/// The 8 knobs.
#[derive(Debug, Clone)]
pub struct KnobCfg {
    /// MIDI channel, 1..=16.
    pub channel: u8,
    /// CC number per knob.
    pub ccs: Vec<u8>,
    /// Absolute or relative.
    pub mode: KnobMode,
    /// Relative encoding, when `mode = "relative"`.
    pub relative_format: RelFormat,
    /// Send 14-bit values as `cc` plus `cc + 32` (MIDI LSB convention).
    pub high_resolution: bool,
    /// Soft-takeover behaviour in absolute mode.
    pub pickup: Pickup,
    /// Ignore movements smaller than this many raw units; the knobs are noisy at rest and this
    /// stops a stream of redundant CCs.
    pub deadband: u16,
    /// Raw units of travel that span the full output range, in accumulate mode.
    ///
    /// The knobs report 0..999 over one turn, so 1000 makes a single turn sweep the whole CC
    /// range. Halve it to make them twice as fast.
    pub travel: u16,
    /// Where each knob sits when the driver starts, in accumulate mode.
    ///
    /// An endless encoder has no position to read back, so the starting value has to be assumed.
    pub initial: u8,
}

/// The 4-D push encoder.
#[derive(Debug, Clone)]
pub struct EncoderCfg {
    /// MIDI channel, 1..=16.
    pub channel: u8,
    /// CC used for rotation.
    pub cc: u8,
    /// Absolute (accumulates internally) or relative.
    pub mode: KnobMode,
    /// Relative encoding, when `mode = "relative"`.
    pub relative_format: RelFormat,
    /// Multiplier applied to each detent.
    ///
    /// At 1 a full sweep of 0..127 takes 128 clicks, which is a lot of twisting; 2 halves it.
    pub step: i32,
    /// Where the encoder sits when the driver starts.
    pub initial: u8,
}

/// The touch strip: one continuous input plus a 25-LED meter beside it.
#[derive(Debug, Clone)]
pub struct StripCfg {
    /// Whether to transmit at all.
    pub enabled: bool,
    /// MIDI channel, 1..=16.
    pub channel: u8,
    /// CC number.
    pub cc: u8,
    /// Light the strip's LEDs to follow the finger.
    pub leds: bool,
    /// Fill the meter from the far end.
    pub led_reversed: bool,
    /// Raw LED byte written to a lit segment.
    ///
    /// The strip does not decode colour the way the pads do, so this is a raw value rather than a
    /// palette index.
    pub led_value: u8,
}

/// The rear pedal jack, which carries up to two switches or expression pedals.
#[derive(Debug, Clone)]
pub struct PedalCfg {
    /// Whether to transmit at all.
    pub enabled: bool,
    /// MIDI channel, 1..=16.
    pub channel: u8,
    /// CC number per pedal.
    pub ccs: Vec<u8>,
    /// Treat the input as a switch (0 or 127) rather than continuous.
    pub switch: bool,
    /// Switch threshold, as a 12-bit value.
    pub switch_threshold: u16,
}

/// How a button's MIDI output behaves across presses.
#[derive(Debug, Clone, Copy, PartialEq, Eq, Structural)]
pub enum ButtonMode {
    /// On while held, off on release.
    Momentary,
    /// Each press flips between on and off.
    Toggle,
    /// Send only on press, nothing on release.
    Trigger,
}

/// Where a button's LED takes its state from.
#[derive(Debug, Clone, Copy, PartialEq, Eq, Structural)]
pub enum LedMode {
    /// Mirror the button's own state.
    Follow,
    /// Mirror whatever the host sends back on the button's own MIDI address.
    Midi,
    /// Always lit at the idle brightness.
    Always,
    /// Never lit.
    Off,
}

/// What a named control should do.
///
/// Written either as a bare string, which is the common case:
///
/// ```toml
/// [buttons]
/// play = "cc 1 118"
/// ```
///
/// or as a table when something other than the defaults is wanted:
///
/// ```toml
/// [buttons]
/// mute = { send = "cc 16 37", mode = "toggle" }
/// ```
///
/// Where the control's bit and LED live is in the device profile.
#[derive(Debug, Clone)]
pub enum Binding {
    /// Just what to send; press behaviour and LED take their defaults.
    Send(String),
    /// The full form.
    Full(ButtonCfg),
}

/// The long form of a control binding.
#[derive(Debug, Clone)]
pub struct ButtonCfg {
    /// MIDI to emit, in the compact form documented on [`Action`].
    pub send: String,
    /// Press/release behaviour.
    pub mode: ButtonMode,
    /// Where the LED takes its state from.
    pub led: LedMode,
}

impl Binding {
    /// What is sent.
    pub open spec fn sends(self) -> String {
        match self {
            Binding::Send(s) => s,
            Binding::Full(c) => c.send,
        }
    }

    /// The full form: the short one is momentary and its LED follows the button.
    pub open spec fn full(self) -> ButtonCfg {
        match self {
            Binding::Send(s) => ButtonCfg {
                send: s,
                mode: ButtonMode::Momentary,
                led: LedMode::Follow,
            },
            Binding::Full(c) => c,
        }
    }

    /// Normalise either form into the full one.
    pub fn resolve(&self) -> (r: ButtonCfg)
        ensures
            r == self.full(),
    {
        match self {
            Binding::Send(s) => ButtonCfg {
                send: s.clone(),
                mode: ButtonMode::Momentary,
                led: LedMode::Follow,
            },
            Binding::Full(c) => ButtonCfg { send: c.send.clone(), mode: c.mode, led: c.led },
        }
    }
}

/// A parsed `midi = "..."` string.
///
/// Accepted forms:
///
/// | string              | meaning                                  |
/// |---------------------|------------------------------------------|
/// | `none`              | emit nothing                             |
/// | `note <ch> <n>`     | note on/off, velocity 127                |
/// | `cc <ch> <n>`       | control change, 127 on / 0 off           |
/// | `cc <ch> <n> <v>`   | control change with an explicit on value |
/// | `pc <ch> <n>`       | program change on press                  |
/// | `start`/`stop`/`continue` | transport message on press         |
#[derive(Debug, Clone, Copy, PartialEq, Eq, Structural)]
pub enum Action {
    /// Emit nothing.
    Nothing,
    /// Note on/off.
    Note { ch: u8, note: u8, vel: u8 },
    /// Control change with an explicit "on" value.
    Cc { ch: u8, cc: u8, on: u8 },
    /// Program change, press only.
    Program { ch: u8, num: u8 },
    /// Transport message, press only.
    Transport(Transport),
}

/// The transport messages a button can emit.
#[derive(Debug, Clone, Copy, PartialEq, Eq, Structural)]
pub enum Transport {
    /// MIDI start.
    Start,
    /// MIDI stop.
    Stop,
    /// MIDI continue.
    Continue,
}

/// The parts of an action string that are numbers.
#[derive(Debug, Clone, Copy, PartialEq, Eq, Structural)]
pub enum Field {
    Channel,
    Note,
    Cc,
    Value,
    Program,
}

impl Field {
    pub open spec fn name(self) -> Seq<char> {
        match self {
            Field::Channel => "channel"@,
            Field::Note => "note"@,
            Field::Cc => "cc"@,
            Field::Value => "value"@,
            Field::Program => "program"@,
        }
    }

    fn as_str(self) -> (r: &'static str)
        ensures
            r@ == self.name(),
    {
        match self {
            Field::Channel => "channel",
            Field::Note => "note",
            Field::Cc => "cc",
            Field::Value => "value",
            Field::Program => "program",
        }
    }
}

/// What is wrong with an action string.
#[derive(Debug, Clone, Copy, PartialEq, Eq, Structural)]
pub enum ActionFault {
    /// The string ends before this part.
    Missing(Field),
    /// This part is not a number of eight bits.
    Bad(Field),
    /// The channel is not one of 1..16.
    Channel(u8),
    /// This part is not one of 0..127.
    Outside(Field, u8),
    /// The first word is none of the known ones.
    Unknown,
}

/// An action string that could not be read.
#[derive(Debug)]
pub struct ActionError {
    /// The string.
    pub text: String,
    /// What is wrong with it.
    pub fault: ActionFault,
}

/// The message for an action string that could not be read.
pub open spec fn action_message(text: Seq<char>, fault: ActionFault) -> Seq<char> {
    let front = "`"@ + text + "`: "@;
    match fault {
        ActionFault::Missing(f) => front + "missing "@ + f.name(),
        ActionFault::Bad(f) => front + "bad "@ + f.name(),
        ActionFault::Channel(c) => front + "channel "@ + dec(c as nat) + " outside 1..16"@,
        ActionFault::Outside(f, v) => front + f.name() + " "@ + dec(v as nat)
            + " outside 0..127"@,
        ActionFault::Unknown => front + "unknown action `"@ + first_word(text) + "`"@,
    }
}

/// The first word of a string, empty where it has none.
pub open spec fn first_word(s: Seq<char>) -> Seq<char> {
    if words(s).len() > 0 {
        words(s)[0]
    } else {
        Seq::empty()
    }
}

impl ActionError {
    /// The message for it.
    pub fn message(&self) -> (r: String)
        ensures
            r@ == action_message(self.text@, self.fault),
    {
        let mut s = String::new();
        s.append("`");
        s.append(self.text.as_str());
        s.append("`: ");
        match self.fault {
            ActionFault::Missing(f) => {
                s.append("missing ");
                s.append(f.as_str());
            },
            ActionFault::Bad(f) => {
                s.append("bad ");
                s.append(f.as_str());
            },
            ActionFault::Channel(c) => {
                s.append("channel ");
                push_dec(&mut s, c as u64);
                s.append(" outside 1..16");
            },
            ActionFault::Outside(f, v) => {
                s.append(f.as_str());
                s.append(" ");
                push_dec(&mut s, v as u64);
                s.append(" outside 0..127");
            },
            ActionFault::Unknown => {
                s.append("unknown action `");
                let w = split_words(self.text.as_str());
                if w.len() > 0 {
                    assert(views(w@)[0] == w@[0]@);
                    s.append(w[0].as_str());
                }
                s.append("`");
            },
        }
        assert(s@ =~= action_message(self.text@, self.fault));
        s
    }
}

/// Word `i`, where there is one.
pub open spec fn word_at(w: Seq<Seq<char>>, i: int) -> Option<Seq<char>> {
    if 0 <= i < w.len() {
        Some(w[i])
    } else {
        None
    }
}

/// An eight-bit number.
pub open spec fn read_num(w: Option<Seq<char>>, f: Field) -> Result<u8, ActionFault> {
    match w {
        None => Err(ActionFault::Missing(f)),
        Some(s) => match read_uint(s, 255) {
            None => Err(ActionFault::Bad(f)),
            Some(v) => Ok(v as u8),
        },
    }
}

/// A channel: 1..16 as written, counted from 0 from here on.
pub open spec fn read_channel(w: Option<Seq<char>>) -> Result<u8, ActionFault> {
    match read_num(w, Field::Channel) {
        Err(e) => Err(e),
        Ok(c) => if 1 <= c <= 16 {
            Ok((c - 1) as u8)
        } else {
            Err(ActionFault::Channel(c))
        },
    }
}

/// A data byte, 0..127.
pub open spec fn read_data(w: Option<Seq<char>>, f: Field) -> Result<u8, ActionFault> {
    match read_num(w, f) {
        Err(e) => Err(e),
        Ok(v) => if v <= 127 {
            Ok(v)
        } else {
            Err(ActionFault::Outside(f, v))
        },
    }
}

/// The on value of a control change: 127 where none is given.
pub open spec fn read_value(w: Option<Seq<char>>) -> Result<u8, ActionFault> {
    match w {
        None => Ok(127),
        Some(_) => read_data(w, Field::Value),
    }
}

/// What an action string means. Words past the ones that a form has are ignored.
pub open spec fn read_action(s: Seq<char>) -> Result<Action, ActionFault> {
    let w = words(s);
    if w.len() == 0 || w[0] == "none"@ {
        Ok(Action::Nothing)
    } else if w[0] == "note"@ {
        match read_channel(word_at(w, 1)) {
            Err(e) => Err(e),
            Ok(ch) => match read_data(word_at(w, 2), Field::Note) {
                Err(e) => Err(e),
                Ok(note) => Ok(Action::Note { ch, note, vel: 127 }),
            },
        }
    } else if w[0] == "cc"@ {
        match read_channel(word_at(w, 1)) {
            Err(e) => Err(e),
            Ok(ch) => match read_data(word_at(w, 2), Field::Cc) {
                Err(e) => Err(e),
                Ok(cc) => match read_value(word_at(w, 3)) {
                    Err(e) => Err(e),
                    Ok(on) => Ok(Action::Cc { ch, cc, on }),
                },
            },
        }
    } else if w[0] == "pc"@ {
        match read_channel(word_at(w, 1)) {
            Err(e) => Err(e),
            Ok(ch) => match read_data(word_at(w, 2), Field::Program) {
                Err(e) => Err(e),
                Ok(num) => Ok(Action::Program { ch, num }),
            },
        }
    } else if w[0] == "start"@ {
        Ok(Action::Transport(Transport::Start))
    } else if w[0] == "stop"@ {
        Ok(Action::Transport(Transport::Stop))
    } else if w[0] == "continue"@ {
        Ok(Action::Transport(Transport::Continue))
    } else {
        Err(ActionFault::Unknown)
    }
}

fn num_at(w: &Vec<String>, i: usize, f: Field) -> (r: Result<u8, ActionFault>)
    ensures
        r == read_num(word_at(views(w@), i as int), f),
{
    if i >= w.len() {
        return Err(ActionFault::Missing(f));
    }
    assert(views(w@)[i as int] == w@[i as int]@);
    let cs = chars_of(w[i].as_str());
    match parse_uint(&cs, 255) {
        None => Err(ActionFault::Bad(f)),
        Some(v) => Ok(v as u8),
    }
}

fn channel_at(w: &Vec<String>, i: usize) -> (r: Result<u8, ActionFault>)
    ensures
        r == read_channel(word_at(views(w@), i as int)),
{
    match num_at(w, i, Field::Channel) {
        Err(e) => Err(e),
        Ok(c) => if 1 <= c && c <= 16 {
            Ok(c - 1)
        } else {
            Err(ActionFault::Channel(c))
        },
    }
}

fn data_at(w: &Vec<String>, i: usize, f: Field) -> (r: Result<u8, ActionFault>)
    ensures
        r == read_data(word_at(views(w@), i as int), f),
{
    match num_at(w, i, f) {
        Err(e) => Err(e),
        Ok(v) => if v <= 127 {
            Ok(v)
        } else {
            Err(ActionFault::Outside(f, v))
        },
    }
}

/// The action that a list of words means.
fn action_of(w: &Vec<String>) -> (r: Result<Action, ActionFault>)
    ensures
        forall|s: Seq<char>| #[trigger] words(s) == views(w@) ==> r == read_action(s),
{
    if w.len() == 0 {
        return Ok(Action::Nothing);
    }
    assert(views(w@)[0] == w@[0]@);
    let kind = w[0].as_str();
    if same(kind, "none") {
        Ok(Action::Nothing)
    } else if same(kind, "note") {
        match channel_at(w, 1) {
            Err(e) => Err(e),
            Ok(ch) => match data_at(w, 2, Field::Note) {
                Err(e) => Err(e),
                Ok(note) => Ok(Action::Note { ch, note, vel: 127 }),
            },
        }
    } else if same(kind, "cc") {
        match channel_at(w, 1) {
            Err(e) => Err(e),
            Ok(ch) => match data_at(w, 2, Field::Cc) {
                Err(e) => Err(e),
                Ok(cc) => {
                    if w.len() <= 3 {
                        Ok(Action::Cc { ch, cc, on: 127 })
                    } else {
                        match data_at(w, 3, Field::Value) {
                            Err(e) => Err(e),
                            Ok(on) => Ok(Action::Cc { ch, cc, on }),
                        }
                    }
                },
            },
        }
    } else if same(kind, "pc") {
        match channel_at(w, 1) {
            Err(e) => Err(e),
            Ok(ch) => match data_at(w, 2, Field::Program) {
                Err(e) => Err(e),
                Ok(num) => Ok(Action::Program { ch, num }),
            },
        }
    } else if same(kind, "start") {
        Ok(Action::Transport(Transport::Start))
    } else if same(kind, "stop") {
        Ok(Action::Transport(Transport::Stop))
    } else if same(kind, "continue") {
        Ok(Action::Transport(Transport::Continue))
    } else {
        Err(ActionFault::Unknown)
    }
}

impl Action {
    /// Parse the compact form.
    pub fn parse(s: &str) -> (r: Result<Self, ActionError>)
        ensures
            match r {
                Ok(a) => read_action(s@) == Ok::<Action, ActionFault>(a),
                Err(e) => e.text@ == s@ && read_action(s@) == Err::<Action, ActionFault>(e.fault),
            },
    {
        let w = split_words(s);
        match action_of(&w) {
            Ok(a) => Ok(a),
            Err(fault) => Err(ActionError { text: s.to_owned(), fault }),
        }
    }

    /// The message for a state change.
    pub open spec fn sends(self, on: bool) -> Option<Msg> {
        match self {
            Action::Nothing => None,
            Action::Note { ch, note, vel } => Some(
                if on {
                    Msg::NoteOn { ch, note, vel }
                } else {
                    Msg::NoteOff { ch, note, vel: 0 }
                },
            ),
            Action::Cc { ch, cc, on: v } => Some(
                Msg::Cc {
                    ch,
                    cc,
                    val: if on {
                        v
                    } else {
                        0
                    },
                },
            ),
            Action::Program { ch, num } => if on {
                Some(Msg::Program { ch, num })
            } else {
                None
            },
            Action::Transport(t) => if on {
                Some(
                    match t {
                        Transport::Start => Msg::Start,
                        Transport::Stop => Msg::Stop,
                        Transport::Continue => Msg::Continue,
                    },
                )
            } else {
                None
            },
        }
    }

    /// The message for a state change, or `None` when nothing should be sent.
    pub fn message(self, on: bool) -> (r: Option<Msg>)
        ensures
            r == self.sends(on),
    {
        match self {
            Action::Nothing => None,
            Action::Note { ch, note, vel } => Some(
                if on {
                    Msg::NoteOn { ch, note, vel }
                } else {
                    Msg::NoteOff { ch, note, vel: 0 }
                },
            ),
            Action::Cc { ch, cc, on: v } => Some(
                Msg::Cc {
                    ch,
                    cc,
                    val: if on {
                        v
                    } else {
                        0
                    },
                },
            ),
            Action::Program { ch, num } => if on {
                Some(Msg::Program { ch, num })
            } else {
                None
            },
            Action::Transport(t) => if on {
                Some(
                    match t {
                        Transport::Start => Msg::Start,
                        Transport::Stop => Msg::Stop,
                        Transport::Continue => Msg::Continue,
                    },
                )
            } else {
                None
            },
        }
    }

    /// A press sends the message that the action names, on its channel and its number.
    pub proof fn law_a_press_sends_what_is_named(ch: u8, num: u8, val: u8)
        ensures
            (Action::Note { ch, note: num, vel: val }).sends(true) == Some(
                Msg::NoteOn { ch, note: num, vel: val },
            ),
            (Action::Cc { ch, cc: num, on: val }).sends(true) == Some(
                Msg::Cc { ch, cc: num, val },
            ),
            (Action::Program { ch, num }).sends(true) == Some(Msg::Program { ch, num }),
            Action::Transport(Transport::Start).sends(true) == Some(Msg::Start),
            Action::Transport(Transport::Stop).sends(true) == Some(Msg::Stop),
            Action::Transport(Transport::Continue).sends(true) == Some(Msg::Continue),
            Action::Nothing.sends(true) is None,
    {
    }

    /// The words of an action name what a press sends: the channel as it is counted from 1, the
    /// number, and for a control change the value, which is 127 where there is none.
    pub proof fn law_words_name_the_message(s: Seq<char>, channel: nat, num: nat, val: nat)
        requires
            1 <= channel <= 16,
            num <= 127,
            val <= 127,
        ensures
            words(s) == seq!["note"@, dec(channel), dec(num)] ==> (read_action(s) matches Ok(a)
                && a.sends(true) == Some(
                Msg::NoteOn { ch: (channel - 1) as u8, note: num as u8, vel: 127 },
            )),
            words(s) == seq!["cc"@, dec(channel), dec(num)] ==> (read_action(s) matches Ok(a)
                && a.sends(true) == Some(
                Msg::Cc { ch: (channel - 1) as u8, cc: num as u8, val: 127 },
            )),
            words(s) == seq!["cc"@, dec(channel), dec(num), dec(val)] ==> (read_action(
                s,
            ) matches Ok(a) && a.sends(true) == Some(
                Msg::Cc { ch: (channel - 1) as u8, cc: num as u8, val: val as u8 },
            )),
            words(s) == seq!["pc"@, dec(channel), dec(num)] ==> (read_action(s) matches Ok(a)
                && a.sends(true) == Some(
                Msg::Program { ch: (channel - 1) as u8, num: num as u8 },
            )),
            words(s) == seq!["start"@] ==> (read_action(s) matches Ok(a) && a.sends(true) == Some(
                Msg::Start,
            )),
            words(s) == seq!["stop"@] ==> (read_action(s) matches Ok(a) && a.sends(true) == Some(
                Msg::Stop,
            )),
            words(s) == seq!["continue"@] ==> (read_action(s) matches Ok(a) && a.sends(true)
                == Some(Msg::Continue)),
            words(s) == seq!["none"@] || words(s).len() == 0 ==> (read_action(s) matches Ok(a)
                && a.sends(true) is None),
    {
        law_decimal_reads_back(channel, 255);
        law_decimal_reads_back(num, 255);
        law_decimal_reads_back(val, 255);
        reveal_strlit("none");
        reveal_strlit("note");
        reveal_strlit("cc");
        reveal_strlit("pc");
        reveal_strlit("start");
        reveal_strlit("stop");
        reveal_strlit("continue");
        assert("note"@[2] != "none"@[2]);
        assert("cc"@.len() == 2 && "pc"@.len() == 2 && "cc"@[0] != "pc"@[0]);
        assert("start"@.len() == 5 && "stop"@.len() == 4 && "continue"@.len() == 8);
        assert("stop"@[0] != "none"@[0] && "stop"@[0] != "note"@[0]);
    }

    /// A number out of range is refused and named, and so is a word that no action begins with.
    pub proof fn law_bad_words_are_refused(s: Seq<char>, channel: nat, num: nat, val: nat)
        requires
            channel <= 255,
            num <= 255,
            val <= 255,
            words(s).len() >= 1,
        ensures
            words(s).len() >= 2 && words(s)[0] == "cc"@ && words(s)[1] == dec(channel) && !(1
                <= channel <= 16) ==> read_action(s) == Err::<Action, ActionFault>(
                ActionFault::Channel(channel as u8),
            ),
            words(s).len() >= 3 && words(s)[0] == "cc"@ && words(s)[1] == dec(channel) && 1
                <= channel <= 16 && words(s)[2] == dec(num) && num > 127 ==> read_action(s)
                == Err::<Action, ActionFault>(ActionFault::Outside(Field::Cc, num as u8)),
            words(s).len() >= 4 && words(s)[0] == "cc"@ && words(s)[1] == dec(channel) && 1
                <= channel <= 16 && words(s)[2] == dec(num) && num <= 127 && words(s)[3] == dec(
                val,
            ) && val > 127 ==> read_action(s) == Err::<Action, ActionFault>(
                ActionFault::Outside(Field::Value, val as u8),
            ),
            words(s).len() == 2 && words(s)[0] == "cc"@ && words(s)[1] == dec(channel) && 1
                <= channel <= 16 ==> read_action(s) == Err::<Action, ActionFault>(
                ActionFault::Missing(Field::Cc),
            ),
            words(s).len() == 1 && words(s)[0] == "note"@ ==> read_action(s) == Err::<
                Action,
                ActionFault,
            >(ActionFault::Missing(Field::Channel)),
            words(s)[0].len() > 8 ==> read_action(s) == Err::<Action, ActionFault>(
                ActionFault::Unknown,
            ),
    {
        law_decimal_reads_back(channel, 255);
        law_decimal_reads_back(num, 255);
        law_decimal_reads_back(val, 255);
        reveal_strlit("none");
        reveal_strlit("note");
        reveal_strlit("cc");
        reveal_strlit("pc");
        reveal_strlit("start");
        reveal_strlit("stop");
        reveal_strlit("continue");
        assert("note"@[2] != "none"@[2]);
        assert("cc"@.len() == 2);
    }

    /// Whatever string an action was read from, the messages that it sends are within MIDI's
    /// ranges.
    pub proof fn law_parsed_actions_are_midi(s: Seq<char>, on: bool)
        ensures
            match read_action(s) {
                Ok(a) => a.sends(on) is Some ==> a.sends(on)->0.in_range(),
                Err(_) => true,
            },
    {
    }

    /// A release undoes a press on the same address: a note is ended, a control goes back to 0,
    /// and what only fires on a press stays silent.
    pub proof fn law_release_answers_press(self)
        ensures
            match self {
                Action::Note { ch, note, .. } => self.sends(false) == Some(
                    Msg::NoteOff { ch, note, vel: 0 },
                ),
                Action::Cc { ch, cc, .. } => self.sends(false) == Some(Msg::Cc { ch, cc, val: 0 }),
                _ => self.sends(false) is None,
            },
            self.sends(true) is None <==> self is Nothing,
    {
    }
}

// Defaults.

impl Default for PresetInfo {
    fn default() -> (r: Self)
        ensures
            r.name@.len() == 0,
            r.description@.len() == 0,
            r.author@.len() == 0,
    {
        PresetInfo { name: String::new(), description: String::new(), author: String::new() }
    }
}

impl General {
    pub open spec fn is_default(self) -> bool {
        &&& self.client_name@ == "Maschine MK3"@
        &&& self.out_port@ == "Controller Out"@
        &&& self.in_port@ == "Controller In"@
        &&& self.realtime_priority == 80
        &&& self.lock_memory
        &&& self.gui_port == 0
        &&& self.gui_bind@ == "127.0.0.1"@
        &&& self.connect_to@.len() == 0
    }
}

impl Default for General {
    fn default() -> (r: Self)
        ensures
            r.is_default(),
    {
        General {
            client_name: "Maschine MK3".to_owned(),
            out_port: "Controller Out".to_owned(),
            in_port: "Controller In".to_owned(),
            realtime_priority: 80,
            lock_memory: true,
            gui_port: 0,
            gui_bind: "127.0.0.1".to_owned(),
            connect_to: Vec::new(),
        }
    }
}

impl DisplayCfg {
    pub open spec fn is_default(self) -> bool {
        &&& self.enabled
        &&& self.brightness == 80
        &&& self.contrast == 50
        &&& self.fps == 30
        &&& self.title@ == "MASCHINE MK3"@
    }
}

impl Default for DisplayCfg {
    fn default() -> (r: Self)
        ensures
            r.is_default(),
    {
        DisplayCfg {
            enabled: true,
            brightness: 80,
            contrast: 50,
            fps: 30,
            title: "MASCHINE MK3".to_owned(),
        }
    }
}

impl LedCfg {
    pub open spec fn is_default(self) -> bool {
        &&& self.enabled
        &&& self.button_idle == 10
        &&& self.button_active == 127
        &&& self.fps == 60
    }
}

impl Default for LedCfg {
    fn default() -> (r: Self)
        ensures
            r.is_default(),
    {
        LedCfg { enabled: true, button_idle: 10, button_active: 127, fps: 60 }
    }
}

impl PadCfg {
    pub open spec fn is_default(self) -> bool {
        &&& self.channel == 10
        &&& self.notes@ == NOTES_BOTTOM_LEFT@
        &&& self.curve is Linear
        &&& self.fixed_velocity == 100
        &&& self.velocity_max == 2000
        &&& self.aftertouch_max == 4095
        &&& self.aftertouch_curve is Soft
        &&& self.threshold == 0
        &&& self.aftertouch is Poly
        &&& self.aftertouch_floor == 64
        &&& !self.press_sends_note
        &&& self.idle_colour == 11
        &&& self.active_colour == 17
        &&& self.idle_level == 1
    }
}

impl Default for PadCfg {
    fn default() -> (r: Self)
        ensures
            r.is_default(),
    {
        let mut notes: Vec<u8> = Vec::new();
        let all = NOTES_BOTTOM_LEFT;
        let mut i: usize = 0;
        while i < PADS
            invariant
                i <= PADS,
                all == NOTES_BOTTOM_LEFT,
                notes@ == all@.take(i as int),
            decreases PADS - i,
        {
            notes.push(all[i]);
            assert(all@.take(i as int + 1) =~= all@.take(i as int).push(all@[i as int]));
            i += 1;
        }
        assert(all@.take(PADS as int) =~= all@);
        PadCfg {
            channel: 10,
            notes,
            curve: Curve::Linear,
            fixed_velocity: 100,
            velocity_max: 2000,
            aftertouch_max: 4095,
            aftertouch_curve: Curve::Soft,
            threshold: 0,
            aftertouch: Aftertouch::Poly,
            aftertouch_floor: 64,
            press_sends_note: false,
            idle_colour: 11,
            active_colour: 17,
            idle_level: 1,
        }
    }
}

impl KnobCfg {
    pub open spec fn is_default(self) -> bool {
        &&& self.channel == 1
        &&& self.ccs@ == seq![16u8, 17, 18, 19, 20, 21, 22, 23]
        &&& self.mode is Accumulate
        &&& self.relative_format is Twos
        &&& !self.high_resolution
        &&& self.pickup is Jump
        &&& self.deadband == 2
        &&& self.travel == 1000
        &&& self.initial == 64
    }
}

impl Default for KnobCfg {
    fn default() -> (r: Self)
        ensures
            r.is_default(),
    {
        let mut ccs: Vec<u8> = Vec::new();
        let mut cc: u8 = 16;
        while cc < 24
            invariant
                16 <= cc <= 24,
                ccs@ =~= seq![16u8, 17, 18, 19, 20, 21, 22, 23].take(cc - 16),
            decreases 24 - cc,
        {
            ccs.push(cc);
            cc += 1;
        }
        assert(ccs@ =~= seq![16u8, 17, 18, 19, 20, 21, 22, 23]);
        KnobCfg {
            channel: 1,
            ccs,
            mode: KnobMode::Accumulate,
            relative_format: RelFormat::Twos,
            high_resolution: false,
            pickup: Pickup::Jump,
            deadband: 2,
            travel: 1000,
            initial: 64,
        }
    }
}

impl EncoderCfg {
    pub open spec fn is_default(self) -> bool {
        &&& self.channel == 1
        &&& self.cc == 24
        &&& self.mode is Absolute
        &&& self.relative_format is Twos
        &&& self.step == 2
        &&& self.initial == 64
    }
}

impl Default for EncoderCfg {
    fn default() -> (r: Self)
        ensures
            r.is_default(),
    {
        EncoderCfg {
            channel: 1,
            cc: 24,
            mode: KnobMode::Absolute,
            relative_format: RelFormat::Twos,
            step: 2,
            initial: 64,
        }
    }
}

impl StripCfg {
    pub open spec fn is_default(self) -> bool {
        &&& self.enabled
        &&& self.channel == 1
        &&& self.cc == 1
        &&& self.leds
        &&& !self.led_reversed
        &&& self.led_value == 0x1f
    }
}

impl Default for StripCfg {
    fn default() -> (r: Self)
        ensures
            r.is_default(),
    {
        StripCfg {
            enabled: true,
            channel: 1,
            cc: 1,
            leds: true,
            led_reversed: false,
            led_value: 0x1f,
        }
    }
}

impl PedalCfg {
    pub open spec fn is_default(self) -> bool {
        &&& !self.enabled
        &&& self.channel == 1
        &&& self.ccs@ == seq![64u8, 67]
        &&& self.switch
        &&& self.switch_threshold == 2048
    }
}

impl Default for PedalCfg {
    fn default() -> (r: Self)
        ensures
            r.is_default(),
    {
        let mut ccs: Vec<u8> = Vec::new();
        ccs.push(64);
        ccs.push(67);
        assert(ccs@ =~= seq![64u8, 67]);
        PedalCfg { enabled: false, channel: 1, ccs, switch: true, switch_threshold: 2048 }
    }
}

impl Default for ButtonCfg {
    fn default() -> (r: Self)
        ensures
            r.send@ == "none"@,
            r.mode is Momentary,
            r.led is Follow,
    {
        ButtonCfg { send: "none".to_owned(), mode: ButtonMode::Momentary, led: LedMode::Follow }
    }
}

impl Default for Config {
    fn default() -> (r: Self)
        ensures
            r.is_default(),
    {
        Config {
            preset: None,
            general: General::default(),
            display: DisplayCfg::default(),
            leds: LedCfg::default(),
            pads: PadCfg::default(),
            knobs: KnobCfg::default(),
            encoder: EncoderCfg::default(),
            touchstrip: StripCfg::default(),
            pedal: PedalCfg::default(),
            buttons: NameMap::new(),
        }
    }
}

// Validation.

/// The parts of the config that have a channel.
#[derive(Debug, Clone, Copy, PartialEq, Eq, Structural)]
pub enum Section {
    Pads,
    Knobs,
    Encoder,
    Touchstrip,
    Pedal,
}

impl Section {
    pub open spec fn name(self) -> Seq<char> {
        match self {
            Section::Pads => "pads"@,
            Section::Knobs => "knobs"@,
            Section::Encoder => "encoder"@,
            Section::Touchstrip => "touchstrip"@,
            Section::Pedal => "pedal"@,
        }
    }

    fn as_str(self) -> (r: &'static str)
        ensures
            r@ == self.name(),
    {
        match self {
            Section::Pads => "pads",
            Section::Knobs => "knobs",
            Section::Encoder => "encoder",
            Section::Touchstrip => "touchstrip",
            Section::Pedal => "pedal",
        }
    }
}

/// Why a config is refused, as a model.
pub enum ConfigFault {
    Channel(Section, u8),
    NotesLen(nat),
    NoteRange(u8),
    KnobCcsLen(nat),
    HighResolution(Seq<u8>),
    PedalCcs,
    DisplayRange,
    IdleLevel,
    VelocityMax,
    Aftertouch(u16, u16),
    Travel,
    KnobInitial,
    EncoderInitial,
    EncoderStep,
    BadAction(Seq<char>, Seq<char>, ActionFault),
    NoControl(Seq<char>),
    DidYouMean(Seq<char>, Seq<Seq<char>>),
}

/// Why a config is refused.
#[derive(Debug)]
pub enum ConfigError {
    /// A channel is not one of 1..16.
    Channel(Section, u8),
    /// How many pad notes there are, where that is not one for each pad.
    NotesLen(usize),
    /// A pad note above 127.
    NoteRange(u8),
    /// How many knob CCs there are, where that is not one for each knob.
    KnobCcsLen(usize),
    /// The knob CCs, where high resolution leaves no room for one of them.
    HighResolution(Vec<u8>),
    /// More than two pedal CCs.
    PedalCcs,
    /// Brightness or contrast above 100.
    DisplayRange,
    /// A brightness step above 3.
    IdleLevel,
    /// A full-scale velocity of 0.
    VelocityMax,
    /// A full-scale pressure that does not exceed the floor: both.
    Aftertouch(u16, u16),
    /// A knob travel of 0.
    Travel,
    /// A knob's start above 127.
    KnobInitial,
    /// The encoder's start above 127.
    EncoderInitial,
    /// An encoder step of 0.
    EncoderStep,
    /// The named binding's action cannot be read.
    BadAction(String, ActionError),
    /// The device has no control of that name.
    NoControl(String),
    /// The device has no control of that name, but some that are like it.
    DidYouMean(String, Vec<String>),
}

impl View for ConfigError {
    type V = ConfigFault;

    open spec fn view(&self) -> ConfigFault {
        match *self {
            ConfigError::Channel(s, c) => ConfigFault::Channel(s, c),
            ConfigError::NotesLen(n) => ConfigFault::NotesLen(n as nat),
            ConfigError::NoteRange(n) => ConfigFault::NoteRange(n),
            ConfigError::KnobCcsLen(n) => ConfigFault::KnobCcsLen(n as nat),
            ConfigError::HighResolution(v) => ConfigFault::HighResolution(v@),
            ConfigError::PedalCcs => ConfigFault::PedalCcs,
            ConfigError::DisplayRange => ConfigFault::DisplayRange,
            ConfigError::IdleLevel => ConfigFault::IdleLevel,
            ConfigError::VelocityMax => ConfigFault::VelocityMax,
            ConfigError::Aftertouch(a, b) => ConfigFault::Aftertouch(a, b),
            ConfigError::Travel => ConfigFault::Travel,
            ConfigError::KnobInitial => ConfigFault::KnobInitial,
            ConfigError::EncoderInitial => ConfigFault::EncoderInitial,
            ConfigError::EncoderStep => ConfigFault::EncoderStep,
            ConfigError::BadAction(n, e) => ConfigFault::BadAction(n@, e.text@, e.fault),
            ConfigError::NoControl(n) => ConfigFault::NoControl(n@),
            ConfigError::DidYouMean(n, v) => ConfigFault::DidYouMean(n@, views(v@)),
        }
    }
}

/// Byte values as a list in square brackets, from the first up to `n`.
pub open spec fn listed(v: Seq<u8>, n: int) -> Seq<char>
    decreases n,
{
    if n <= 0 {
        Seq::empty()
    } else if n == 1 {
        dec(v[0] as nat)
    } else {
        listed(v, n - 1) + ", "@ + dec(v[n - 1] as nat)
    }
}

impl ConfigFault {
    /// The message for it.
    pub open spec fn text(self) -> Seq<char> {
        match self {
            ConfigFault::Channel(s, c) => s.name() + ": channel "@ + dec(c as nat)
                + " outside 1..16"@,
            ConfigFault::NotesLen(n) => "pads.notes needs 16 entries, found "@ + dec(n),
            ConfigFault::NoteRange(n) => "pads.notes contains "@ + dec(n as nat)
                + ", outside 0..127"@,
            ConfigFault::KnobCcsLen(n) => "knobs.ccs needs 8 entries, found "@ + dec(n),
            ConfigFault::HighResolution(v) => HIGH_RESOLUTION_TEXT@ + "["@ + listed(
                v,
                v.len() as int,
            ) + "]"@,
            ConfigFault::PedalCcs => "pedal.ccs takes at most 2 entries"@,
            ConfigFault::DisplayRange => "display brightness and contrast are 0..100"@,
            ConfigFault::IdleLevel => "pads.idle_level is 0..3"@,
            ConfigFault::VelocityMax => "pads.velocity_max must be above 0"@,
            ConfigFault::Aftertouch(a, b) => "pads.aftertouch_max ("@ + dec(a as nat)
                + ") must exceed pads.aftertouch_floor ("@ + dec(b as nat) + ")"@,
            ConfigFault::Travel => "knobs.travel must be above 0"@,
            ConfigFault::KnobInitial => "knobs.initial is 0..127"@,
            ConfigFault::EncoderInitial => "encoder.initial is 0..127"@,
            ConfigFault::EncoderStep => "encoder.step must not be 0"@,
            ConfigFault::BadAction(n, t, f) => "buttons."@ + n,
            ConfigFault::NoControl(n) => "buttons."@ + n
                + ": no control called that on this device"@,
            ConfigFault::DidYouMean(n, v) => "buttons."@ + n
                + ": no control called that; did you mean "@ + joined(
                v,
                ", "@,
                v.len() as int,
            ) + "?"@,
        }
    }

    /// The message for it together with its cause, where it has one.
    pub open spec fn details(self) -> Seq<char> {
        match self {
            ConfigFault::BadAction(n, t, f) => self.text() + ": "@ + action_message(t, f),
            _ => self.text(),
        }
    }
}

/// What is said of knob CCs that leave no room for their low halves.
pub const HIGH_RESOLUTION_TEXT: &'static str =
    "knobs.high_resolution needs CCs below 32 so the LSB can go to cc + 32; got ";

fn push_list(s: &mut String, v: &Vec<u8>)
    ensures
        final(s)@ == old(s)@ + listed(v@, v@.len() as int),
{
    let mut i: usize = 0;
    while i < v.len()
        invariant
            i <= v@.len(),
            s@ =~= old(s)@ + listed(v@, i as int),
        decreases v@.len() - i,
    {
        if i > 0 {
            s.append(", ");
        }
        push_dec(s, v[i] as u64);
        i += 1;
    }
}

impl ConfigError {
    /// The message for it.
    pub fn message(&self) -> (r: String)
        ensures
            r@ == self@.text(),
    {
        let mut s = String::new();
        match self {
            ConfigError::Channel(sec, c) => {
                s.append(sec.as_str());
                s.append(": channel ");
                push_dec(&mut s, *c as u64);
                s.append(" outside 1..16");
            },
            ConfigError::NotesLen(n) => {
                s.append("pads.notes needs 16 entries, found ");
                push_dec(&mut s, *n as u64);
            },
            ConfigError::NoteRange(n) => {
                s.append("pads.notes contains ");
                push_dec(&mut s, *n as u64);
                s.append(", outside 0..127");
            },
            ConfigError::KnobCcsLen(n) => {
                s.append("knobs.ccs needs 8 entries, found ");
                push_dec(&mut s, *n as u64);
            },
            ConfigError::HighResolution(v) => {
                s.append(HIGH_RESOLUTION_TEXT);
                s.append("[");
                push_list(&mut s, v);
                s.append("]");
            },
            ConfigError::PedalCcs => {
                s.append("pedal.ccs takes at most 2 entries");
            },
            ConfigError::DisplayRange => {
                s.append("display brightness and contrast are 0..100");
            },
            ConfigError::IdleLevel => {
                s.append("pads.idle_level is 0..3");
            },
            ConfigError::VelocityMax => {
                s.append("pads.velocity_max must be above 0");
            },
            ConfigError::Aftertouch(a, b) => {
                s.append("pads.aftertouch_max (");
                push_dec(&mut s, *a as u64);
                s.append(") must exceed pads.aftertouch_floor (");
                push_dec(&mut s, *b as u64);
                s.append(")");
            },
            ConfigError::Travel => {
                s.append("knobs.travel must be above 0");
            },
            ConfigError::KnobInitial => {
                s.append("knobs.initial is 0..127");
            },
            ConfigError::EncoderInitial => {
                s.append("encoder.initial is 0..127");
            },
            ConfigError::EncoderStep => {
                s.append("encoder.step must not be 0");
            },
            ConfigError::BadAction(n, _) => {
                s.append("buttons.");
                s.append(n.as_str());
            },
            ConfigError::NoControl(n) => {
                s.append("buttons.");
                s.append(n.as_str());
                s.append(": no control called that on this device");
            },
            ConfigError::DidYouMean(n, v) => {
                s.append("buttons.");
                s.append(n.as_str());
                s.append(": no control called that; did you mean ");
                push_joined(&mut s, v, ", ");
                s.append("?");
                assert(views(v@).len() == v@.len());
            },
        }
        assert(s@ =~= self@.text());
        s
    }

    /// The message for it together with its cause, where it has one.
    pub fn details(&self) -> (r: String)
        ensures
            r@ == self@.details(),
    {
        let mut s = self.message();
        if let ConfigError::BadAction(_, e) = self {
            s.append(": ");
            let cause = e.message();
            s.append(cause.as_str());
            assert(s@ =~= self@.details());
        }
        s
    }
}

/// The first of the notes from `i` on that is above 127.
pub open spec fn first_bad_note(notes: Seq<u8>, i: int) -> Option<u8>
    decreases notes.len() - i,
{
    if i < 0 || i >= notes.len() {
        None
    } else if notes[i] > 127 {
        Some(notes[i])
    } else {
        first_bad_note(notes, i + 1)
    }
}

/// How long a string is in UTF-8.
pub open spec fn byte_len(s: Seq<char>) -> usize {
    vstd::utf8::encode_utf8(s).len() as usize
}

/// Whether `k` could be what was meant by `name`: one of them contains the other, unless `k` is
/// shorter than three bytes, or two edits lead from one to the other.
pub open spec fn alike(k: Seq<char>, name: Seq<char>) -> bool {
    (byte_len(k) >= 3 && (occurs(k, name) || occurs(name, k))) || distance(
        k,
        name,
        k.len(),
        name.len(),
    ) <= 2
}

/// The first four names among the first `n` entries that could have been meant.
pub open spec fn near_to<V>(e: Seq<(String, V)>, name: Seq<char>, n: int) -> Seq<Seq<char>>
    decreases n,
{
    if n <= 0 {
        Seq::empty()
    } else {
        let rest = near_to(e, name, n - 1);
        if rest.len() < 4 && alike(e[n - 1].0@, name) {
            rest.push(e[n - 1].0@)
        } else {
            rest
        }
    }
}

fn near_names<V>(map: &NameMap<V>, name: &str) -> (r: Vec<String>)
    ensures
        views(r@) == near_to(map.entries(), name@, map.entries().len() as int),
{
    let mut out: Vec<String> = Vec::new();
    let mut i: usize = 0;
    while i < map.len()
        invariant
            i <= map.entries().len(),
            views(out@) =~= near_to(map.entries(), name@, i as int),
        decreases map.entries().len() - i,
    {
        let k = map.key(i).as_str();
        assert(views(out@).len() == out@.len());
        // A plain substring test matches far too eagerly, since "plya" would suggest "a", so a
        // shared run of at least three characters is asked for, or a small slip.
        if out.len() < 4 && ((k.len() >= 3 && (contains(k, name) || contains(name, k)))
            || edit_distance_at_most(k, name, 2)) {
            let ghost prior = out@;
            out.push(k.to_owned());
            assert(views(out@) =~= views(prior).push(out@.last()@));
        }
        i += 1;
    }
    out
}

fn channel_ok(c: u8) -> (r: bool)
    ensures
        r == (1 <= c <= 16),
{
    1 <= c && c <= 16
}

impl Config {
    pub open spec fn is_default(self) -> bool {
        &&& self.preset is None
        &&& self.general.is_default()
        &&& self.display.is_default()
        &&& self.leds.is_default()
        &&& self.pads.is_default()
        &&& self.knobs.is_default()
        &&& self.encoder.is_default()
        &&& self.touchstrip.is_default()
        &&& self.pedal.is_default()
        &&& self.bindings().len() == 0
    }

    /// The bindings with their names, in the order of the names.
    pub open spec fn bindings(self) -> Seq<(String, Binding)> {
        self.buttons.entries()
    }

    /// The first channel that is not one of 1..16.
    pub open spec fn channel_fault(self) -> Option<ConfigFault> {
        if !(1 <= self.pads.channel <= 16) {
            Some(ConfigFault::Channel(Section::Pads, self.pads.channel))
        } else if !(1 <= self.knobs.channel <= 16) {
            Some(ConfigFault::Channel(Section::Knobs, self.knobs.channel))
        } else if !(1 <= self.encoder.channel <= 16) {
            Some(ConfigFault::Channel(Section::Encoder, self.encoder.channel))
        } else if !(1 <= self.touchstrip.channel <= 16) {
            Some(ConfigFault::Channel(Section::Touchstrip, self.touchstrip.channel))
        } else if !(1 <= self.pedal.channel <= 16) {
            Some(ConfigFault::Channel(Section::Pedal, self.pedal.channel))
        } else {
            None
        }
    }

    /// The first list that has the wrong length or holds a wrong number.
    pub open spec fn list_fault(self) -> Option<ConfigFault> {
        if self.pads.notes@.len() != PADS {
            Some(ConfigFault::NotesLen(self.pads.notes@.len()))
        } else if first_bad_note(self.pads.notes@, 0) is Some {
            Some(ConfigFault::NoteRange(first_bad_note(self.pads.notes@, 0)->0))
        } else if self.knobs.ccs@.len() != KNOBS {
            Some(ConfigFault::KnobCcsLen(self.knobs.ccs@.len()))
        } else if self.knobs.high_resolution && exists|i: int|
            0 <= i < KNOBS && #[trigger] self.knobs.ccs@[i] >= 32 {
            Some(ConfigFault::HighResolution(self.knobs.ccs@))
        } else if self.pedal.ccs@.len() > 2 {
            Some(ConfigFault::PedalCcs)
        } else {
            None
        }
    }

    /// The first single value that is out of its range.
    pub open spec fn value_fault(self) -> Option<ConfigFault> {
        if self.display.brightness > 100 || self.display.contrast > 100 {
            Some(ConfigFault::DisplayRange)
        } else if self.pads.idle_level > 3 {
            Some(ConfigFault::IdleLevel)
        } else if self.pads.velocity_max == 0 {
            Some(ConfigFault::VelocityMax)
        } else if self.pads.aftertouch_max <= self.pads.aftertouch_floor {
            Some(ConfigFault::Aftertouch(self.pads.aftertouch_max, self.pads.aftertouch_floor))
        } else if self.knobs.travel == 0 {
            Some(ConfigFault::Travel)
        } else if self.knobs.initial > 127 {
            Some(ConfigFault::KnobInitial)
        } else if self.encoder.initial > 127 {
            Some(ConfigFault::EncoderInitial)
        } else if self.encoder.step == 0 {
            Some(ConfigFault::EncoderStep)
        } else {
            None
        }
    }

    /// The first of the bindings from `i` on whose action cannot be read.
    pub open spec fn action_fault(self, i: int) -> Option<ConfigFault>
        decreases self.bindings().len() - i,
    {
        if i < 0 || i >= self.bindings().len() {
            None
        } else {
            let (name, b) = self.bindings()[i];
            match read_action(b.sends()@) {
                Err(f) => Some(ConfigFault::BadAction(name@, b.sends()@, f)),
                Ok(_) => self.action_fault(i + 1),
            }
        }
    }

    /// The first thing wrong with the settings.
    pub open spec fn fault(self) -> Option<ConfigFault> {
        if self.channel_fault() is Some {
            self.channel_fault()
        } else if self.list_fault() is Some {
            self.list_fault()
        } else if self.value_fault() is Some {
            self.value_fault()
        } else {
            self.action_fault(0)
        }
    }

    /// Settings that leave the engine nothing to guess.
    pub open spec fn valid(self) -> bool {
        self.fault() is None
    }

    /// The first of the bindings from `i` on that names no control of the device.
    pub open spec fn name_fault(self, profile: Profile, i: int) -> Option<ConfigFault>
        decreases self.bindings().len() - i,
    {
        if i < 0 || i >= self.bindings().len() {
            None
        } else {
            let name = self.bindings()[i].0@;
            let e = profile.controls();
            let near = near_to(e, name, e.len() as int);
            if lookup(e, name) is Some {
                self.name_fault(profile, i + 1)
            } else if near.len() == 0 {
                Some(ConfigFault::NoControl(name))
            } else {
                Some(ConfigFault::DidYouMean(name, near))
            }
        }
    }

    fn check_channels(&self) -> (r: Result<(), ConfigError>)
        ensures
            match r {
                Ok(()) => self.channel_fault() is None,
                Err(e) => self.channel_fault() == Some(e@),
            },
    {
        if !channel_ok(self.pads.channel) {
            return Err(ConfigError::Channel(Section::Pads, self.pads.channel));
        }
        if !channel_ok(self.knobs.channel) {
            return Err(ConfigError::Channel(Section::Knobs, self.knobs.channel));
        }
        if !channel_ok(self.encoder.channel) {
            return Err(ConfigError::Channel(Section::Encoder, self.encoder.channel));
        }
        if !channel_ok(self.touchstrip.channel) {
            return Err(ConfigError::Channel(Section::Touchstrip, self.touchstrip.channel));
        }
        if !channel_ok(self.pedal.channel) {
            return Err(ConfigError::Channel(Section::Pedal, self.pedal.channel));
        }
        Ok(())
    }

    fn check_lists(&self) -> (r: Result<(), ConfigError>)
        ensures
            match r {
                Ok(()) => self.list_fault() is None,
                Err(e) => self.list_fault() == Some(e@),
            },
    {
        if self.pads.notes.len() != PADS {
            return Err(ConfigError::NotesLen(self.pads.notes.len()));
        }
        let mut i: usize = 0;
        while i < PADS
            invariant
                i <= PADS,
                self.pads.notes@.len() == PADS,
                first_bad_note(self.pads.notes@, 0) == first_bad_note(self.pads.notes@, i as int),
            decreases PADS - i,
        {
            if self.pads.notes[i] > 127 {
                return Err(ConfigError::NoteRange(self.pads.notes[i]));
            }
            i += 1;
        }
        if self.knobs.ccs.len() != KNOBS {
            return Err(ConfigError::KnobCcsLen(self.knobs.ccs.len()));
        }
        if self.knobs.high_resolution {
            let mut i: usize = 0;
            while i < KNOBS
                invariant
                    i <= KNOBS,
                    self.pads.notes@.len() == PADS,
                    first_bad_note(self.pads.notes@, 0) is None,
                    self.knobs.ccs@.len() == KNOBS,
                    self.knobs.high_resolution,
                    forall|k: int| 0 <= k < i ==> #[trigger] self.knobs.ccs@[k] < 32,
                decreases KNOBS - i,
            {
                if self.knobs.ccs[i] >= 32 {
                    let mut copy: Vec<u8> = Vec::new();
                    let mut j: usize = 0;
                    while j < KNOBS
                        invariant
                            j <= KNOBS,
                            self.knobs.ccs@.len() == KNOBS,
                            copy@ =~= self.knobs.ccs@.take(j as int),
                        decreases KNOBS - j,
                    {
                        copy.push(self.knobs.ccs[j]);
                        j += 1;
                    }
                    assert(copy@ =~= self.knobs.ccs@);
                    return Err(ConfigError::HighResolution(copy));
                }
                i += 1;
            }
        }
        if self.pedal.ccs.len() > 2 {
            return Err(ConfigError::PedalCcs);
        }
        Ok(())
    }

    fn check_values(&self) -> (r: Result<(), ConfigError>)
        ensures
            match r {
                Ok(()) => self.value_fault() is None,
                Err(e) => self.value_fault() == Some(e@),
            },
    {
        if self.display.brightness > 100 || self.display.contrast > 100 {
            return Err(ConfigError::DisplayRange);
        }
        if self.pads.idle_level > 3 {
            return Err(ConfigError::IdleLevel);
        }
        if self.pads.velocity_max == 0 {
            return Err(ConfigError::VelocityMax);
        }
        if self.pads.aftertouch_max <= self.pads.aftertouch_floor {
            return Err(
                ConfigError::Aftertouch(self.pads.aftertouch_max, self.pads.aftertouch_floor),
            );
        }
        if self.knobs.travel == 0 {
            return Err(ConfigError::Travel);
        }
        if self.knobs.initial > 127 {
            return Err(ConfigError::KnobInitial);
        }
        if self.encoder.initial > 127 {
            return Err(ConfigError::EncoderInitial);
        }
        if self.encoder.step == 0 {
            return Err(ConfigError::EncoderStep);
        }
        Ok(())
    }

    /// Reject anything the engine would have to guess about at runtime.
    ///
    /// Only settings are checked here. Whether a control exists at all is a question about the
    /// hardware, so it is checked against the profile by [`Config::validate_against`].
    pub fn validate(&self) -> (r: Result<(), ConfigError>)
        ensures
            match r {
                Ok(()) => self.fault() is None,
                Err(e) => self.fault() == Some(e@),
            },
    {
        match self.check_channels() {
            Ok(()) => {},
            Err(e) => {
                return Err(e);
            },
        }
        match self.check_lists() {
            Ok(()) => {},
            Err(e) => {
                return Err(e);
            },
        }
        match self.check_values() {
            Ok(()) => {},
            Err(e) => {
                return Err(e);
            },
        }
        let mut i: usize = 0;
        while i < self.buttons.len()
            invariant
                i <= self.bindings().len(),
                self.fault() == self.action_fault(i as int),
            decreases self.bindings().len() - i,
        {
            let b = self.buttons.value(i).resolve();
            match Action::parse(b.send.as_str()) {
                Ok(_) => {},
                Err(e) => {
                    return Err(ConfigError::BadAction(self.buttons.key(i).clone(), e));
                },
            }
            i += 1;
        }
        Ok(())
    }

    /// Check the config against the hardware it will run on.
    ///
    /// A name here that the profile does not have is almost always a typo, and silently ignoring
    /// it means a control that simply never works with no clue as to why. The message lists near
    /// matches.
    pub fn validate_against(&self, profile: &Profile) -> (r: Result<(), ConfigError>)
        ensures
            match r {
                Ok(()) => self.valid() && self.name_fault(*profile, 0) is None,
                Err(e) => Some(e@) == (if self.valid() {
                    self.name_fault(*profile, 0)
                } else {
                    self.fault()
                }),
            },
    {
        match self.validate() {
            Ok(()) => {},
            Err(e) => {
                return Err(e);
            },
        }
        let mut i: usize = 0;
        while i < self.buttons.len()
            invariant
                i <= self.bindings().len(),
                self.valid(),
                self.name_fault(*profile, 0) == self.name_fault(*profile, i as int),
            decreases self.bindings().len() - i,
        {
            let name = self.buttons.key(i);
            if profile.get(name.as_str()).is_none() {
                let near = near_names(&profile.control, name.as_str());
                assert(views(near@).len() == near@.len());
                if near.len() == 0 {
                    return Err(ConfigError::NoControl(name.clone()));
                }
                return Err(ConfigError::DidYouMean(name.clone(), near));
            }
            i += 1;
        }
        Ok(())
    }
}

/// A button with its action already parsed.
#[derive(Debug, Clone)]
pub struct CompiledButton {
    /// Control name, as the profile and the config both write it.
    pub name: String,
    /// HID bit, from the profile.
    pub bit: usize,
    /// LED slot from the profile, negative when the control has no light.
    pub led: i32,
    /// Palette index for a colour LED, negative for monochrome.
    pub led_colour: i32,
    /// Parsed action.
    pub action: Action,
    /// Press/release behaviour.
    pub mode: ButtonMode,
    /// LED source.
    pub led_mode: LedMode,
}

/// A binding joined with what the hardware has under its name. An action that cannot be read does
/// nothing.
pub open spec fn compiled(name: String, binding: Binding, control: Control) -> CompiledButton {
    CompiledButton {
        name,
        bit: control.bit->0,
        led: match control.led {
            Some(l) => l as i32,
            None => -1i32,
        },
        led_colour: match control.led_colour {
            Some(c) => c as i32,
            None => -1i32,
        },
        action: match read_action(binding.full().send@) {
            Ok(a) => a,
            Err(_) => Action::Nothing,
        },
        mode: binding.full().mode,
        led_mode: binding.full().led,
    }
}

/// How many buttons at the front have no greater bit.
pub open spec fn bit_slot(v: Seq<CompiledButton>, bit: usize) -> nat
    decreases v.len(),
{
    if v.len() == 0 || v[0].bit > bit {
        0
    } else {
        1 + bit_slot(v.skip(1), bit)
    }
}

/// The buttons with one more, behind those whose bit is not greater.
pub open spec fn with_button(v: Seq<CompiledButton>, b: CompiledButton) -> Seq<CompiledButton> {
    v.insert(bit_slot(v, b.bit) as int, b)
}

/// Ordered by bit.
pub open spec fn bits_ascend(v: Seq<CompiledButton>) -> bool {
    forall|i: int, j: int| 0 <= i < j < v.len() ==> #[trigger] v[i].bit <= #[trigger] v[j].bit
}

proof fn lemma_bit_slot(v: Seq<CompiledButton>, bit: usize)
    ensures
        bit_slot(v, bit) <= v.len(),
        bit_slot(v, bit) < v.len() ==> v[bit_slot(v, bit) as int].bit > bit,
        forall|i: int| 0 <= i < bit_slot(v, bit) ==> (#[trigger] v[i]).bit <= bit,
    decreases v.len(),
{
    if v.len() > 0 && v[0].bit <= bit {
        lemma_bit_slot(v.skip(1), bit);
        assert forall|i: int| 0 <= i < bit_slot(v, bit) implies (#[trigger] v[i]).bit <= bit by {
            if i > 0 {
                assert(v.skip(1)[i - 1] == v[i]);
            }
        }
    }
}

proof fn lemma_with_button_ascends(v: Seq<CompiledButton>, b: CompiledButton)
    requires
        bits_ascend(v),
    ensures
        bits_ascend(with_button(v, b)),
{
    lemma_bit_slot(v, b.bit);
    let p = bit_slot(v, b.bit) as int;
    let w = with_button(v, b);
    assert forall|i: int, j: int| 0 <= i < j < w.len() implies #[trigger] w[i].bit
        <= #[trigger] w[j].bit by {
        let oi = if i < p {
            i
        } else {
            i - 1
        };
        let oj = if j < p {
            j
        } else {
            j - 1
        };
        if i != p {
            assert(w[i] == v[oi]);
        }
        if j != p {
            assert(w[j] == v[oj]);
        }
        if i == p {
            assert(v[p].bit > b.bit);
            if oj > p {
                assert(v[p].bit <= v[oj].bit);
            }
        } else if j == p {
            assert(v[oi].bit <= b.bit);
        } else {
            assert(v[oi].bit <= v[oj].bit);
        }
    }
}

impl Config {
    /// The control that binding `i` is about, if the device has it and it is a button.
    pub open spec fn bound_control(self, profile: Profile, i: int) -> Option<Control> {
        match lookup(profile.controls(), self.bindings()[i].0@) {
            Some(c) if c.bit is Some => Some(c),
            _ => None,
        }
    }

    /// The first `n` bindings joined with the hardware, ordered by bit, and by name where bits
    /// are equal.
    pub open spec fn compiled_to(self, profile: Profile, n: int) -> Seq<CompiledButton>
        decreases n,
    {
        if n <= 0 {
            Seq::empty()
        } else {
            let rest = self.compiled_to(profile, n - 1);
            let (name, binding) = self.bindings()[n - 1];
            match self.bound_control(profile, n - 1) {
                Some(c) => with_button(rest, compiled(name, binding, c)),
                None => rest,
            }
        }
    }

    /// All bindings joined with the hardware.
    pub open spec fn compiled_all(self, profile: Profile) -> Seq<CompiledButton> {
        self.compiled_to(profile, self.bindings().len() as int)
    }

    /// Join the config's bindings with the profile's hardware facts.
    ///
    /// Pre-parsing here keeps the input path free of string handling, and joining here is what
    /// lets the config talk about `play` while the engine works in bit indices.
    pub fn compiled_buttons(&self, profile: &Profile) -> (r: Vec<CompiledButton>)
        ensures
            r@ == self.compiled_all(*profile),
            bits_ascend(r@),
    {
        let mut v: Vec<CompiledButton> = Vec::new();
        let mut i: usize = 0;
        while i < self.buttons.len()
            invariant
                i <= self.bindings().len(),
                v@ == self.compiled_to(*profile, i as int),
                bits_ascend(v@),
            decreases self.bindings().len() - i,
        {
            let name = self.buttons.key(i);
            if let Some(control) = profile.get(name.as_str()) {
                if let Some(bit) = control.bit {
                    let b = self.buttons.value(i).resolve();
                    let action = match Action::parse(b.send.as_str()) {
                        Ok(a) => a,
                        Err(_) => Action::Nothing,
                    };
                    let led: i32 = match control.led {
                        Some(l) => #[verifier::truncate] (l as i32),
                        None => -1,
                    };
                    let led_colour: i32 = match control.led_colour {
                        Some(c) => c as i32,
                        None => -1,
                    };
                    let c = CompiledButton {
                        name: name.clone(),
                        bit,
                        led,
                        led_colour,
                        action,
                        mode: b.mode,
                        led_mode: b.led,
                    };
                    proof {
                        lemma_with_button_ascends(v@, c);
                    }
                    insert_button(&mut v, c);
                }
            }
            i += 1;
        }
        v
    }

    /// Every binding of a button that the device has is among the compiled ones, with the bit and
    /// the LED of the hardware.
    pub proof fn law_every_bound_button_is_compiled(self, profile: Profile, i: int, n: int)
        requires
            0 <= i < n <= self.bindings().len(),
            self.bound_control(profile, i) is Some,
        ensures
            self.compiled_to(profile, n).contains(
                compiled(
                    self.bindings()[i].0,
                    self.bindings()[i].1,
                    self.bound_control(profile, i)->0,
                ),
            ),
        decreases n,
    {
        let b = compiled(
            self.bindings()[i].0,
            self.bindings()[i].1,
            self.bound_control(profile, i)->0,
        );
        let rest = self.compiled_to(profile, n - 1);
        let (name, binding) = self.bindings()[n - 1];
        if i == n - 1 {
            lemma_bit_slot(rest, b.bit);
            assert(with_button(rest, b)[bit_slot(rest, b.bit) as int] == b);
        } else {
            self.law_every_bound_button_is_compiled(profile, i, n - 1);
            let k = rest.index_of(b);
            assert(rest[k] == b);
            match self.bound_control(profile, n - 1) {
                Some(c) => {
                    let new = compiled(name, binding, c);
                    lemma_bit_slot(rest, new.bit);
                    let p = bit_slot(rest, new.bit) as int;
                    let w = with_button(rest, new);
                    if k < p {
                        assert(w[k] == b);
                    } else {
                        assert(w[k + 1] == b);
                    }
                },
                None => {},
            }
        }
    }

    /// Nothing is compiled that was not bound, and each bound button once: there are as many
    /// compiled buttons as bindings of buttons that the device has.
    pub proof fn law_compiled_buttons_are_bound(self, profile: Profile, n: int, k: int)
        requires
            0 <= n <= self.bindings().len(),
            0 <= k < self.compiled_to(profile, n).len(),
        ensures
            self.compiled_to(profile, n).len() <= n,
            exists|i: int|
                0 <= i < n && #[trigger] self.bound_control(profile, i) is Some
                    && self.compiled_to(profile, n)[k] == compiled(
                    self.bindings()[i].0,
                    self.bindings()[i].1,
                    self.bound_control(profile, i)->0,
                ),
        decreases n,
    {
        if n > 0 {
            let rest = self.compiled_to(profile, n - 1);
            let all = self.compiled_to(profile, n);
            let (name, binding) = self.bindings()[n - 1];
            match self.bound_control(profile, n - 1) {
                Some(c) => {
                    let new = compiled(name, binding, c);
                    lemma_bit_slot(rest, new.bit);
                    let p = bit_slot(rest, new.bit) as int;
                    if k == p {
                        assert(all[k] == new);
                        if rest.len() > 0 {
                            self.law_compiled_buttons_are_bound(profile, n - 1, 0);
                        }
                    } else {
                        let m = if k < p {
                            k
                        } else {
                            k - 1
                        };
                        assert(all[k] == rest[m]);
                        self.law_compiled_buttons_are_bound(profile, n - 1, m);
                    }
                },
                None => {
                    self.law_compiled_buttons_are_bound(profile, n - 1, k);
                },
            }
        }
    }

    proof fn lemma_compiled_names_differ(self, profile: Profile, n: int, i: int, j: int)
        requires
            self.buttons.wf(),
            0 <= n <= self.bindings().len(),
            0 <= i < self.compiled_to(profile, n).len(),
            0 <= j < self.compiled_to(profile, n).len(),
            i != j,
        ensures
            self.compiled_to(profile, n)[i].name@ != self.compiled_to(profile, n)[j].name@,
        decreases n,
    {
        if n > 0 {
            let rest = self.compiled_to(profile, n - 1);
            let all = self.compiled_to(profile, n);
            let (name, binding) = self.bindings()[n - 1];
            match self.bound_control(profile, n - 1) {
                Some(c) => {
                    let new = compiled(name, binding, c);
                    lemma_bit_slot(rest, new.bit);
                    let p = bit_slot(rest, new.bit) as int;
                    let oi = if i < p {
                        i
                    } else {
                        i - 1
                    };
                    let oj = if j < p {
                        j
                    } else {
                        j - 1
                    };
                    if i != p && j != p {
                        assert(all[i] == rest[oi] && all[j] == rest[oj]);
                        self.lemma_compiled_names_differ(profile, n - 1, oi, oj);
                    } else {
                        let o = if i == p {
                            oj
                        } else {
                            oi
                        };
                        self.law_compiled_buttons_are_bound(profile, n - 1, o);
                        let a = choose|a: int|
                            0 <= a < n - 1 && #[trigger] self.bound_control(profile, a) is Some
                                && rest[o] == compiled(
                                self.bindings()[a].0,
                                self.bindings()[a].1,
                                self.bound_control(profile, a)->0,
                            );
                        lemma_before_strict(self.bindings()[a].0@, self.bindings()[n - 1].0@);
                    }
                },
                None => {
                    self.lemma_compiled_names_differ(profile, n - 1, i, j);
                },
            }
        }
    }

    /// On a valid profile no two compiled buttons share an LED slot.
    pub proof fn law_lit_buttons_have_slots_of_their_own(self, profile: Profile, i: int, j: int)
        requires
            self.buttons.wf(),
            profile.valid(),
            profile.report.slots() <= i32::MAX,
            0 <= i < self.compiled_all(profile).len(),
            0 <= j < self.compiled_all(profile).len(),
            i != j,
            self.compiled_all(profile)[i].led >= 0,
            self.compiled_all(profile)[j].led >= 0,
        ensures
            self.compiled_all(profile)[i].led != self.compiled_all(profile)[j].led,
    {
        let n = self.bindings().len() as int;
        let v = self.compiled_all(profile);
        let e = profile.controls();
        self.lemma_compiled_names_differ(profile, n, i, j);
        self.law_compiled_buttons_are_bound(profile, n, i);
        self.law_compiled_buttons_are_bound(profile, n, j);
        let a = choose|a: int|
            0 <= a < n && #[trigger] self.bound_control(profile, a) is Some && v[i] == compiled(
                self.bindings()[a].0,
                self.bindings()[a].1,
                self.bound_control(profile, a)->0,
            );
        let b = choose|b: int|
            0 <= b < n && #[trigger] self.bound_control(profile, b) is Some && v[j] == compiled(
                self.bindings()[b].0,
                self.bindings()[b].1,
                self.bound_control(profile, b)->0,
            );
        lemma_position(e, self.bindings()[a].0@);
        lemma_position(e, self.bindings()[b].0@);
        let p = position(e, self.bindings()[a].0@) as int;
        let q = position(e, self.bindings()[b].0@) as int;
        if p < q {
            profile.law_leds_are_distinct(p, q);
        } else {
            profile.law_leds_are_distinct(q, p);
        }
        profile.law_leds_exist(p);
        profile.law_leds_exist(q);
    }

    /// On a valid profile the LED slot of a compiled button exists, and is neither a pad's nor the
    /// touch strip's.
    pub proof fn law_lit_buttons_are_off_the_blocks(self, profile: Profile, i: int)
        requires
            profile.valid(),
            profile.report.slots() <= i32::MAX,
            0 <= i < self.compiled_all(profile).len(),
            self.compiled_all(profile)[i].led >= 0,
        ensures
            self.compiled_all(profile)[i].led < profile.report.slots(),
            !profile.layout.in_block(self.compiled_all(profile)[i].led as usize),
    {
        let n = self.bindings().len() as int;
        let e = profile.controls();
        self.law_compiled_buttons_are_bound(profile, n, i);
        let a = choose|a: int|
            0 <= a < n && #[trigger] self.bound_control(profile, a) is Some
                && self.compiled_all(profile)[i] == compiled(
                self.bindings()[a].0,
                self.bindings()[a].1,
                self.bound_control(profile, a)->0,
            );
        lemma_position(e, self.bindings()[a].0@);
        profile.law_leds_exist(position(e, self.bindings()[a].0@) as int);
    }

    proof fn lemma_actions_read(self, i: int, k: int)
        requires
            self.action_fault(i) is None,
            0 <= i <= k < self.bindings().len(),
        ensures
            read_action(self.bindings()[k].1.sends()@) is Ok,
        decreases self.bindings().len() - i,
    {
        if i < k {
            self.lemma_actions_read(i + 1, k);
        }
    }

    /// In a config that was accepted no compiled button does nothing because its action could not
    /// be read: each does what its string says.
    pub proof fn law_valid_actions_are_kept(self, profile: Profile, i: int)
        requires
            self.valid(),
            0 <= i < self.bindings().len(),
            self.bound_control(profile, i) is Some,
        ensures
            read_action(self.bindings()[i].1.sends()@) == Ok::<Action, ActionFault>(
                compiled(
                    self.bindings()[i].0,
                    self.bindings()[i].1,
                    self.bound_control(profile, i)->0,
                ).action,
            ),
    {
        self.lemma_actions_read(0, i);
    }

    proof fn lemma_names_known(self, profile: Profile, i: int, k: int)
        requires
            self.name_fault(profile, i) is None,
            0 <= i <= k < self.bindings().len(),
        ensures
            lookup(profile.controls(), self.bindings()[k].0@) is Some,
        decreases self.bindings().len() - i,
    {
        if i < k {
            self.lemma_names_known(profile, i + 1, k);
        }
    }

    /// A config that was accepted for a device binds only controls that the device has.
    pub proof fn law_accepted_names_exist(self, profile: Profile, k: int)
        requires
            self.name_fault(profile, 0) is None,
            0 <= k < self.bindings().len(),
        ensures
            lookup(profile.controls(), self.bindings()[k].0@) is Some,
    {
        self.lemma_names_known(profile, 0, k);
    }

    /// The default config is valid.
    pub proof fn law_default_is_valid(self)
        requires
            self.is_default(),
        ensures
            self.valid(),
    {
        assert(first_bad_note(self.pads.notes@, 0) is None) by {
            reveal_with_fuel(first_bad_note, 18);
        }
    }
}

fn insert_button(v: &mut Vec<CompiledButton>, b: CompiledButton)
    ensures
        final(v)@ == with_button(old(v)@, b),
{
    let mut p: usize = 0;
    assert(v@.skip(0) =~= v@);
    while p < v.len() && v[p].bit <= b.bit
        invariant
            p <= v@.len(),
            v@ == old(v)@,
            bit_slot(v@, b.bit) == p + bit_slot(v@.skip(p as int), b.bit),
        decreases v@.len() - p,
    {
        assert(v@.skip(p as int)[0] == v@[p as int]);
        assert(v@.skip(p as int).skip(1) =~= v@.skip(p as int + 1));
        p += 1;
    }
    proof {
        if p < v@.len() {
            assert(v@.skip(p as int)[0] == v@[p as int]);
        }
    }
    v.insert(p, b);
}

// Where the files are.

/// The driver's directory under the user's configuration: `$XDG_CONFIG_HOME` where it is set, else
/// `.config` in the home directory, else the current directory.
pub open spec fn dir_of(xdg: Option<Seq<char>>, home: Option<Seq<char>>) -> Seq<char> {
    let base = match xdg {
        Some(x) => x,
        None => match home {
            Some(h) => in_dir(h, ".config"@),
            None => "."@,
        },
    };
    in_dir(base, "maschine-mk3"@)
}

/// The characters of a string, where there is one.
pub open spec fn maybe_view(s: Option<String>) -> Option<Seq<char>> {
    match s {
        Some(t) => Some(t@),
        None => None,
    }
}

/// The driver's directory under the user's configuration.
pub fn config_dir(xdg: &Option<String>, home: &Option<String>) -> (r: String)
    ensures
        r@ == dir_of(maybe_view(*xdg), maybe_view(*home)),
{
    let base = match xdg {
        Some(x) => x.clone(),
        None => match home {
            Some(h) => join_path(h.as_str(), ".config"),
            None => ".".to_owned(),
        },
    };
    join_path(base.as_str(), "maschine-mk3")
}

impl Config {
    /// Default location: `$XDG_CONFIG_HOME/maschine-mk3/config.toml`.
    pub fn default_path(xdg: &Option<String>, home: &Option<String>) -> (r: String)
        ensures
            r@ == in_dir(dir_of(maybe_view(*xdg), maybe_view(*home)), "config.toml"@),
    {
        let dir = config_dir(xdg, home);
        join_path(dir.as_str(), "config.toml")
    }
}

// What the settings have to be, and what they come to.

proof fn lemma_first_bad_note(notes: Seq<u8>, i: int)
    requires
        0 <= i,
    ensures
        first_bad_note(notes, i) is None <==> (forall|k: int|
            i <= k < notes.len() ==> #[trigger] notes[k] <= 127),
        first_bad_note(notes, i) matches Some(n) ==> n > 127 && notes.contains(n),
    decreases notes.len() - i,
{
    if i < notes.len() {
        lemma_first_bad_note(notes, i + 1);
        assert(notes[i] <= 127 || !(notes[i] <= 127));
    }
}

impl Config {
    proof fn lemma_action_fault(self, i: int)
        requires
            0 <= i,
        ensures
            self.action_fault(i) is None <==> (forall|k: int|
                i <= k < self.bindings().len() ==> #[trigger] read_action(
                    self.bindings()[k].1.sends()@,
                ) is Ok),
            self.action_fault(i) matches Some(f) ==> (f matches ConfigFault::BadAction(n, s, e)
                && exists|k: int|
                i <= k < self.bindings().len() && self.bindings()[k].0@ == n
                    && self.bindings()[k].1.sends()@ == s && #[trigger] read_action(
                    self.bindings()[k].1.sends()@,
                ) == Err::<Action, ActionFault>(e)),
        decreases self.bindings().len() - i,
    {
        if i < self.bindings().len() {
            self.lemma_action_fault(i + 1);
            let a = read_action(self.bindings()[i].1.sends()@);
        }
    }

    /// The settings are accepted if, and only if, each of them is within its range: channels count
    /// from 1 to 16, there are sixteen notes and eight knob controllers, and so on, and every bound
    /// action can be read.
    pub proof fn law_settings_in_range_are_accepted(self)
        ensures
            self.valid() <==> {
                &&& 1 <= self.pads.channel <= 16
                &&& 1 <= self.knobs.channel <= 16
                &&& 1 <= self.encoder.channel <= 16
                &&& 1 <= self.touchstrip.channel <= 16
                &&& 1 <= self.pedal.channel <= 16
                &&& self.pads.notes@.len() == 16
                &&& forall|k: int| 0 <= k < 16 ==> #[trigger] self.pads.notes@[k] <= 127
                &&& self.knobs.ccs@.len() == 8
                &&& self.knobs.high_resolution ==> forall|k: int|
                    0 <= k < 8 ==> #[trigger] self.knobs.ccs@[k] <= 31
                &&& self.pedal.ccs@.len() <= 2
                &&& self.display.brightness <= 100
                &&& self.display.contrast <= 100
                &&& self.pads.idle_level <= 3
                &&& self.pads.velocity_max >= 1
                &&& self.pads.aftertouch_floor < self.pads.aftertouch_max
                &&& self.knobs.travel >= 1
                &&& self.knobs.initial <= 127
                &&& self.encoder.initial <= 127
                &&& self.encoder.step != 0
                &&& forall|k: int|
                    0 <= k < self.bindings().len() ==> #[trigger] read_action(
                        self.bindings()[k].1.sends()@,
                    ) is Ok
            },
    {
        lemma_first_bad_note(self.pads.notes@, 0);
        self.lemma_action_fault(0);
    }

    /// Settings that are refused are refused for something that is wrong with them: what the fault
    /// names is out of its range.
    pub proof fn law_a_fault_names_what_is_wrong(self)
        requires
            !self.valid(),
        ensures
            match self.fault()->0 {
                ConfigFault::Channel(s, c) => !(1 <= c <= 16) && c == match s {
                    Section::Pads => self.pads.channel,
                    Section::Knobs => self.knobs.channel,
                    Section::Encoder => self.encoder.channel,
                    Section::Touchstrip => self.touchstrip.channel,
                    Section::Pedal => self.pedal.channel,
                },
                ConfigFault::NotesLen(n) => n == self.pads.notes@.len() && n != 16,
                ConfigFault::NoteRange(n) => n > 127 && self.pads.notes@.contains(n),
                ConfigFault::KnobCcsLen(n) => n == self.knobs.ccs@.len() && n != 8,
                ConfigFault::HighResolution(v) => self.knobs.high_resolution && v
                    == self.knobs.ccs@ && exists|k: int|
                    0 <= k < v.len() && #[trigger] v[k] > 31,
                ConfigFault::PedalCcs => self.pedal.ccs@.len() > 2,
                ConfigFault::DisplayRange => self.display.brightness > 100 || self.display.contrast
                    > 100,
                ConfigFault::IdleLevel => self.pads.idle_level > 3,
                ConfigFault::VelocityMax => self.pads.velocity_max == 0,
                ConfigFault::Aftertouch(a, b) => a == self.pads.aftertouch_max && b
                    == self.pads.aftertouch_floor && a <= b,
                ConfigFault::Travel => self.knobs.travel == 0,
                ConfigFault::KnobInitial => self.knobs.initial > 127,
                ConfigFault::EncoderInitial => self.encoder.initial > 127,
                ConfigFault::EncoderStep => self.encoder.step == 0,
                ConfigFault::BadAction(n, s, e) => exists|k: int|
                    0 <= k < self.bindings().len() && self.bindings()[k].0@ == n
                        && self.bindings()[k].1.sends()@ == s && #[trigger] read_action(
                        self.bindings()[k].1.sends()@,
                    ) == Err::<Action, ActionFault>(e),
                _ => false,
            },
    {
        lemma_first_bad_note(self.pads.notes@, 0);
        self.lemma_action_fault(0);
        match self.fault()->0 {
            ConfigFault::HighResolution(v) => {
                let k = choose|k: int| 0 <= k < KNOBS && #[trigger] self.knobs.ccs@[k] >= 32;
                assert(v[k] > 31);
            },
            ConfigFault::BadAction(n, s, e) => {
                assert(self.action_fault(0) == self.fault());
            },
            _ => {},
        }
    }

    /// A compiled button is one that was bound: it has the name of a binding, the bit and the light
    /// of the control of that name, and does what the binding says. The short form of a binding is
    /// momentary, and its light follows it.
    pub proof fn law_a_compiled_button_does_what_was_bound(self, profile: Profile, k: int)
        requires
            0 <= k < self.compiled_all(profile).len(),
        ensures
            ({
                let b = self.compiled_all(profile)[k];
                exists|i: int|
                    {
                        &&& 0 <= i < self.bindings().len()
                        &&& (#[trigger] self.bindings()[i]).0 == b.name
                        &&& lookup(profile.controls(), b.name@) matches Some(c) && c.bit == Some(
                            b.bit,
                        ) && (c.led matches Some(l) ==> b.led == l as i32) && (c.led is None
                            ==> b.led < 0) && (c.led_colour matches Some(l) ==> b.led_colour
                            == l as i32) && (c.led_colour is None ==> b.led_colour < 0)
                        &&& match self.bindings()[i].1 {
                            Binding::Send(s) => b.mode is Momentary && b.led_mode is Follow && (
                            read_action(s@) matches Ok(a) ==> b.action == a) && (read_action(
                                s@,
                            ) is Err ==> b.action is Nothing),
                            Binding::Full(f) => b.mode == f.mode && b.led_mode == f.led && (
                            read_action(f.send@) matches Ok(a) ==> b.action == a) && (read_action(
                                f.send@,
                            ) is Err ==> b.action is Nothing),
                        }
                    }
            }),
    {
        let n = self.bindings().len() as int;
        self.law_compiled_buttons_are_bound(profile, n, k);
        let i = choose|i: int|
            0 <= i < n && #[trigger] self.bound_control(profile, i) is Some && self.compiled_to(
                profile,
                n,
            )[k] == compiled(
                self.bindings()[i].0,
                self.bindings()[i].1,
                self.bound_control(profile, i)->0,
            );
        assert(self.bindings()[i].0 == self.compiled_all(profile)[k].name);
    }
}

/// Pads are numbered from the top left, and by default their notes from the bottom left: one more to
/// the right, and four more for each row up.
pub proof fn law_default_notes_run_from_the_bottom_left(across: int, up: int)
    requires
        0 <= across < 4,
        0 <= up < 4,
    ensures
        NOTES_BOTTOM_LEFT@[4 * (3 - up) + across] == 36 + 4 * up + across,
{
    let n = 4 * (3 - up) + across;
    assert(n == 0 || n == 1 || n == 2 || n == 3 || n == 4 || n == 5 || n == 6 || n == 7 || n == 8
        || n == 9 || n == 10 || n == 11 || n == 12 || n == 13 || n == 14 || n == 15);
}

/// Suggestions for a name are names that are there and that could have been meant, four at the most,
/// and all of those where there are fewer.
pub proof fn law_suggestions_could_have_been_meant<V>(
    e: Seq<(String, V)>,
    name: Seq<char>,
    n: int,
    k: int,
)
    requires
        0 <= n <= e.len(),
    ensures
        near_to(e, name, n).len() <= 4,
        0 <= k < near_to(e, name, n).len() ==> exists|i: int|
            0 <= i < n && (#[trigger] e[i]).0@ == near_to(e, name, n)[k] && (occurs(
                e[i].0@,
                name,
            ) || occurs(name, e[i].0@) || distance(
                e[i].0@,
                name,
                e[i].0@.len(),
                name.len(),
            ) <= 2),
        near_to(e, name, n).len() < 4 ==> forall|i: int|
            0 <= i < n && distance((#[trigger] e[i]).0@, name, e[i].0@.len(), name.len()) <= 2
                ==> near_to(e, name, n).contains(e[i].0@),
    decreases n,
{
    if n > 0 {
        let rest = near_to(e, name, n - 1);
        let all = near_to(e, name, n);
        law_suggestions_could_have_been_meant(e, name, n - 1, k);
        if 0 <= k < all.len() && k >= rest.len() {
            assert(e[n - 1].0@ == all[k]);
        }
        if all.len() < 4 {
            assert forall|i: int|
                0 <= i < n && distance((#[trigger] e[i]).0@, name, e[i].0@.len(), name.len())
                    <= 2 implies all.contains(e[i].0@) by {
                if i < n - 1 {
                    let j = rest.index_of(e[i].0@);
                    assert(rest.contains(e[i].0@));
                    assert(all[j] == e[i].0@);
                } else {
                    assert(all.last() == e[i].0@);
                }
            }
        }
    }
}

/// The driver's files are in a directory of its own, under the one that the user set for
/// configuration, or under `.config` in the home directory.
pub proof fn law_files_are_under_the_users_configuration(base: Seq<char>, home: Option<Seq<char>>)
    requires
        base.len() > 0,
        base.last() != '/',
    ensures
        dir_of(Some(base), home) == base + "/maschine-mk3"@,
        dir_of(None, Some(base)) == base + "/.config/maschine-mk3"@,
{
    reveal_strlit("/");
    reveal_strlit("maschine-mk3");
    reveal_strlit("/maschine-mk3");
    reveal_strlit(".config");
    reveal_strlit("/.config/maschine-mk3");
    assert(dir_of(Some(base), home) =~= base + "/maschine-mk3"@);
    let h = in_dir(base, ".config"@);
    assert(h.last() == 'g');
    assert(dir_of(None, Some(base)) =~= base + "/.config/maschine-mk3"@);
}

} // verus!
