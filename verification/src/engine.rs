//! Turning device events into MIDI, and MIDI back into LED state.
//!
//! This runs on the input thread, so it does no I/O of its own: messages come out through a list
//! the caller supplies.
//!
//! What the engine does is a function from its state, the LED slots and the messages so far (a
//! [`Step`]) and one report to the next such step. The functions of the model stand first, then
//! the engine, then what holds of every engine.
use crate::config::{
    clamp_int, max_int, min_int, Action, Aftertouch, ButtonMode, CompiledButton, Config, KnobCfg,
    KnobMode, LedCfg, LedMode, Pickup,
};
use crate::hid::{
    nibble_delta, short_way, wrap_delta, ControlState, PadEvent, PadHit, ANALOGS, BUTTON_BITS, KNOBS,
    KNOB_MAX, PADS, PAD_MAX,
};
use crate::leds::{colour, colour_byte, darkened, lit_one, mono, mono_byte, Lamps, Leds, Level};
use crate::midi::Msg;
use crate::profile::{Layout, Profile};
use vstd::prelude::*;

verus! {

/// Per-knob soft-takeover and deadband state.
#[derive(Debug, Clone, Copy)]
pub struct KnobState {
    /// The position last acted on, 0..=999.
    pub raw: u16,
    /// The value last sent, or last reported by the host.
    pub last_sent: u8,
    /// In pickup mode, whether the knob has crossed the host's value.
    pub engaged: bool,
    /// Whether there is a last value.
    pub seen: bool,
    /// Integrated travel in raw units, for accumulate mode.
    pub accum: i32,
}

/// Per-pad note bookkeeping, so a note off always matches a note on.
#[derive(Debug, Clone, Copy)]
pub struct PadState {
    /// Note number currently sounding, if any.
    pub sounding: Option<u8>,
    /// Last pressure value transmitted.
    pub pressure: u8,
}

/// The values the engine last put on the wire.
///
/// The screens have to show these rather than raw hardware readings: a knob reports an endless
/// 0..999 position that rolls over, so drawing the raw value makes the meter wrap even though the
/// MIDI value is clamped and does not.
#[derive(Debug, Clone, Copy)]
pub struct Outputs {
    /// Last CC value sent for each knob.
    pub knobs: [u8; KNOBS],
    /// Last CC value sent for the encoder.
    pub encoder: u8,
    /// Last CC value sent for the touch strip.
    pub strip: u8,
}

/// What [`Outputs`] says.
pub struct OutputsView {
    pub knobs: Seq<u8>,
    pub encoder: u8,
    pub strip: u8,
}

impl View for Outputs {
    type V = OutputsView;

    open spec fn view(&self) -> OutputsView {
        OutputsView { knobs: self.knobs@, encoder: self.encoder, strip: self.strip }
    }
}

impl Default for Outputs {
    fn default() -> (r: Self)
        ensures
            r@ == no_outputs(),
    {
        let r = Outputs { knobs: [0; KNOBS], encoder: 0, strip: 0 };
        assert(r.knobs@ =~= Seq::new(KNOBS as nat, |i: int| 0u8));
        r
    }
}

pub open spec fn no_outputs() -> OutputsView {
    OutputsView { knobs: Seq::new(KNOBS as nat, |i: int| 0u8), encoder: 0, strip: 0 }
}

/// A knob of which nothing is known yet.
pub open spec fn fresh_knob() -> KnobState {
    KnobState { raw: 0, last_sent: 0, engaged: false, seen: false, accum: 0 }
}

/// A pad at rest.
pub open spec fn fresh_pad() -> PadState {
    PadState { sounding: None, pressure: 0 }
}

/// The state of an engine.
pub struct EngineState {
    pub cfg: Config,
    pub profile: Profile,
    /// The bound buttons, ordered by bit.
    pub buttons: Seq<CompiledButton>,
    /// Latched state for toggle-mode buttons, by bit.
    pub toggle: Seq<bool>,
    /// The report before.
    pub prev: ControlState,
    /// Whether there was one.
    pub have_prev: bool,
    pub knobs: Seq<KnobState>,
    pub pads: Seq<PadState>,
    pub encoder_pos: int,
    /// Highest pad pressure sent, for channel aftertouch.
    pub chan_pressure: u8,
    /// What was last transmitted for each control, for the screens to show.
    pub outputs: OutputsView,
}

impl EngineState {
    /// A config and a profile that can be run, the buttons compiled from them, and positions within
    /// their ranges.
    pub open spec fn wf(self) -> bool {
        &&& self.cfg.runs()
        &&& self.profile.layout.fits()
        &&& self.buttons == self.cfg.compiled_all(self.profile)
        &&& forall|i: int| 0 <= i < KNOBS ==> 0 <= (#[trigger] self.knobs[i]).accum <= 0xffff
        &&& forall|i: int| 0 <= i < KNOBS ==> (#[trigger] self.knobs[i]).raw < 1000
        &&& 0 <= self.encoder_pos <= 255
    }
}

/// An engine's state, the LED slots, and the messages so far.
pub struct Step {
    pub st: EngineState,
    pub leds: Lamps,
    pub out: Seq<Msg>,
}

impl Config {
    /// What the engine needs of a config: channels to count from 0, and room for the low half of
    /// a high-resolution knob. Every valid config has it.
    pub open spec fn runs(self) -> bool {
        &&& self.pads.channel >= 1
        &&& self.knobs.channel >= 1
        &&& self.encoder.channel >= 1
        &&& self.touchstrip.channel >= 1
        &&& self.pedal.channel >= 1
        &&& self.knobs.high_resolution ==> forall|i: int|
            0 <= i < self.knobs.ccs@.len() ==> #[trigger] self.knobs.ccs@[i] < 224
    }

    /// Every valid config can be run.
    pub proof fn law_valid_configs_run(self)
        requires
            self.valid(),
        ensures
            self.runs(),
    {
    }
}

impl Layout {
    /// The analog field of the touch strip.
    pub open spec fn strip_field(self) -> int {
        min_int(self.strip_analog as int, self.analog_count - 1)
    }

    /// The analog field of the touch strip is one that the device reports.
    pub open spec fn fits(self) -> bool {
        0 <= self.strip_field() < ANALOGS
    }
}

// Buttons.

/// The last of the first `n` buttons on `bit`.
pub open spec fn last_on_bit(v: Seq<CompiledButton>, bit: int, n: int) -> Option<int>
    decreases n,
{
    if n <= 0 {
        None
    } else if v[n - 1].bit == bit {
        Some(n - 1)
    } else {
        last_on_bit(v, bit, n - 1)
    }
}

/// How many buttons can be told apart on the input path.
pub const MAX_BUTTONS: usize = 255;

/// The place of the button on `bit`.
pub open spec fn button_on(v: Seq<CompiledButton>, bit: int) -> Option<int> {
    last_on_bit(v, bit, min_int(v.len() as int, MAX_BUTTONS as int))
}

/// The LED byte for a button, honouring whether its slot is a colour one.
pub open spec fn button_byte(cfg: LedCfg, b: CompiledButton, on: bool) -> u8 {
    if b.led_mode is Off {
        0
    } else if b.led_colour >= 0 {
        colour_byte(
            b.led_colour as u8,
            if on {
                Level::Bright
            } else {
                Level::Dim
            },
        )
    } else if on {
        mono_byte(cfg.button_active)
    } else {
        mono_byte(cfg.button_idle)
    }
}

/// The LED slots after a button's light was set.
pub open spec fn light_button(leds: Lamps, cfg: LedCfg, b: CompiledButton, on: bool) -> Lamps {
    lit_one(leds, b.led as int, button_byte(cfg, b, on))
}

/// The latch of a button after it went down or up: only a press flips a toggle.
pub open spec fn latch(b: CompiledButton, latched: bool, down: bool) -> bool {
    if b.mode is Toggle && down {
        !latched
    } else {
        latched
    }
}

/// What a button sends when it goes down or up.
pub open spec fn button_sends(b: CompiledButton, latched: bool, down: bool) -> Option<Msg> {
    match b.mode {
        ButtonMode::Momentary => b.action.sends(down),
        ButtonMode::Trigger => if down {
            b.action.sends(true)
        } else {
            None
        },
        ButtonMode::Toggle => if down {
            b.action.sends(latch(b, latched, down))
        } else {
            None
        },
    }
}

/// Whether a button's own light is on after it went down or up.
pub open spec fn button_glows(b: CompiledButton, latched: bool, down: bool) -> bool {
    if b.mode is Toggle {
        latch(b, latched, down)
    } else {
        down
    }
}

pub open spec fn push_some(out: Seq<Msg>, m: Option<Msg>) -> Seq<Msg> {
    match m {
        Some(m) => out.push(m),
        None => out,
    }
}

/// Bit `bit` went down or up.
pub open spec fn fire(x: Step, bit: int, down: bool) -> Step {
    match button_on(x.st.buttons, bit) {
        None => x,
        Some(i) => {
            let b = x.st.buttons[i];
            let was = x.st.toggle[bit];
            Step {
                st: EngineState { toggle: x.st.toggle.update(bit, latch(b, was, down)), ..x.st },
                leds: if x.st.cfg.leds.enabled && b.led >= 0 && b.led_mode is Follow {
                    light_button(x.leds, x.st.cfg.leds, b, button_glows(b, was, down))
                } else {
                    x.leds
                },
                out: push_some(x.out, button_sends(b, was, down)),
            }
        },
    }
}

/// Every bit from `bit` on that changed fires, in order.
pub open spec fn fire_from(x: Step, s: ControlState, bit: int) -> Step
    decreases BUTTON_BITS - bit,
{
    if bit >= BUTTON_BITS {
        x
    } else if s.held(bit) != x.st.prev.held(bit) {
        fire_from(fire(x, bit, s.held(bit)), s, bit + 1)
    } else {
        fire_from(x, s, bit + 1)
    }
}

// Knobs.

/// Where a knob stands after it moved, the value to show for it, and what it sends.
pub struct KnobMove {
    pub st: KnobState,
    pub shown: Option<u8>,
    pub out: Seq<Msg>,
}

/// The position that a knob reports.
pub open spec fn knob_position(raw: u16) -> u16 {
    (raw % 1000) as u16
}

/// The upper half of a 14-bit value, which is what the controller itself is sent.
pub open spec fn upper_half(v: int) -> u8 {
    (v / 128) as u8
}

/// A 14-bit value as two control changes, the upper half first.
pub open spec fn cc14(ch: u8, cc: u8, v: int) -> Seq<Msg> {
    seq![
        Msg::Cc { ch, cc, val: upper_half(v) },
        Msg::Cc { ch, cc: (cc + 32) as u8, val: (v % 128) as u8 },
    ]
}

/// The step that a host is sent for a movement: an eighth of it, rounded away from 0.
pub open spec fn relative_step(delta: int) -> int {
    if delta >= 0 {
        (delta + 7) / 8
    } else {
        -((7 - delta) / 8)
    }
}

/// The 7-bit value of a position.
pub open spec fn position_value(now: u16) -> u8 {
    ((now * 127) / 999) as u8
}

/// Whether a knob that went from one position to another has reached or passed the value `host`,
/// going the short way round.
pub open spec fn passes(from: u16, to: u16, host: u8) -> bool {
    let a = position_value(from) as int;
    let b = position_value(to) as int;
    ||| -1 <= host - b <= 1
    ||| if from + short_way(from as int, to as int, 1000) == to {
        min_int(a, b) <= host <= max_int(a, b)
    } else {
        host <= min_int(a, b) || max_int(a, b) <= host
    }
}

/// Accumulate: integrate the movement, clamped at the ends, and send the running total where it
/// changed.
pub open spec fn knob_accumulates(k: KnobCfg, cc: u8, st: KnobState, now: u16, delta: int) -> KnobMove {
    let ch = (k.channel - 1) as u8;
    let travel = max_int(k.travel as int, 1);
    let from = if st.seen {
        st.accum as int
    } else {
        (k.initial * travel) / 127
    };
    let accum = clamp_int(from + delta, 0, travel);
    let v = ((accum * 127) / travel) as u8;
    if st.seen && v == st.last_sent {
        KnobMove {
            st: KnobState { raw: now, accum: accum as i32, ..st },
            shown: None,
            out: Seq::empty(),
        }
    } else {
        KnobMove {
            st: KnobState { raw: now, last_sent: v, seen: true, accum: accum as i32, ..st },
            shown: if k.high_resolution {
                Some(upper_half((accum * 16383) / travel))
            } else {
                Some(v)
            },
            out: if k.high_resolution {
                cc14(ch, cc, (accum * 16383) / travel)
            } else {
                seq![Msg::Cc { ch, cc, val: v }]
            },
        }
    }
}

/// Absolute: send the position where its value changed, and in pickup mode only once the knob has
/// reached the last value.
pub open spec fn knob_follows(k: KnobCfg, cc: u8, st: KnobState, now: u16) -> KnobMove {
    let ch = (k.channel - 1) as u8;
    let v = position_value(now);
    if k.high_resolution {
        KnobMove {
            st: KnobState { raw: now, seen: true, ..st },
            shown: Some(upper_half((now * 16383) / 999)),
            out: cc14(ch, cc, (now * 16383) / 999),
        }
    } else if k.pickup is Pickup && !st.engaged && st.seen && !passes(st.raw, now, st.last_sent) {
        KnobMove { st: KnobState { raw: now, ..st }, shown: None, out: Seq::empty() }
    } else {
        let engaged = st.engaged || k.pickup is Pickup;
        if st.seen && v == st.last_sent {
            KnobMove {
                st: KnobState { raw: now, engaged, ..st },
                shown: None,
                out: Seq::empty(),
            }
        } else {
            KnobMove {
                st: KnobState { raw: now, last_sent: v, engaged, seen: true, ..st },
                shown: Some(v),
                out: seq![Msg::Cc { ch, cc, val: v }],
            }
        }
    }
}

/// What a knob does when it reports the position `now`: nothing for a movement within the
/// deadband, measured the short way round the 0..999 seam.
pub open spec fn knob_move(k: KnobCfg, cc: u8, st: KnobState, now: u16) -> KnobMove {
    let delta = short_way(st.raw as int, now as int, 1000);
    if -k.deadband < delta < k.deadband {
        KnobMove { st, shown: None, out: Seq::empty() }
    } else {
        match k.mode {
            KnobMode::Relative => {
                let val = k.relative_format.encoded(relative_step(delta)) as u8;
                KnobMove {
                    st: KnobState { raw: now, seen: true, ..st },
                    shown: Some(val),
                    out: seq![Msg::Cc { ch: (k.channel - 1) as u8, cc, val }],
                }
            },
            KnobMode::Accumulate => knob_accumulates(k, cc, st, now, delta),
            KnobMode::Absolute => knob_follows(k, cc, st, now),
        }
    }
}

/// The entry of a list of bytes, 0 past its end.
pub open spec fn byte_at(v: Seq<u8>, i: int) -> u8 {
    if 0 <= i < v.len() {
        v[i]
    } else {
        0
    }
}

/// Knob `i` reports its position.
pub open spec fn turn(x: Step, s: ControlState, i: int) -> Step {
    let k = x.st.cfg.knobs;
    let m = knob_move(k, byte_at(k.ccs@, i), x.st.knobs[i], knob_position(s.knobs@[i]));
    Step {
        st: EngineState {
            knobs: x.st.knobs.update(i, m.st),
            outputs: match m.shown {
                Some(v) => OutputsView {
                    knobs: x.st.outputs.knobs.update(i, v),
                    ..x.st.outputs
                },
                None => x.st.outputs,
            },
            ..x.st
        },
        out: x.out + m.out,
        ..x
    }
}

/// The knobs from `i` on report their positions.
pub open spec fn turn_from(x: Step, s: ControlState, i: int) -> Step
    decreases KNOBS - i,
{
    if i >= KNOBS {
        x
    } else {
        turn_from(turn(x, s, i), s, i + 1)
    }
}

// The encoder.

/// The encoder's counter is reported.
pub open spec fn turn_encoder(x: Step, s: ControlState) -> Step {
    let e = x.st.cfg.encoder;
    let ch = (e.channel - 1) as u8;
    let d = short_way(x.st.prev.encoder_lo as int, s.encoder_lo as int, 16);
    if d == 0 {
        x
    } else {
        match e.mode {
            KnobMode::Relative => {
                let val = e.relative_format.encoded(d * e.step) as u8;
                Step {
                    st: EngineState {
                        outputs: OutputsView { encoder: val, ..x.st.outputs },
                        ..x.st
                    },
                    out: x.out.push(Msg::Cc { ch, cc: e.cc, val }),
                    ..x
                }
            },
            _ => {
                let pos = clamp_int(x.st.encoder_pos + d * e.step, 0, 127);
                if pos == x.st.encoder_pos {
                    x
                } else {
                    Step {
                        st: EngineState {
                            encoder_pos: pos,
                            outputs: OutputsView { encoder: pos as u8, ..x.st.outputs },
                            ..x.st
                        },
                        out: x.out.push(Msg::Cc { ch, cc: e.cc, val: pos as u8 }),
                        ..x
                    }
                }
            },
        }
    }
}

// The touch strip and the pedals.

/// A reading out of `full` as a 7-bit value.
pub open spec fn scaled(v: u16, full: int) -> u8 {
    ((min_int(v as int, full) * 127) / full) as u8
}

/// How many segments of the strip are lit: none without a finger, else the part of full scale
/// that is reached, rounded up so that any contact lights at least one.
pub open spec fn segments(l: Layout, raw: u16) -> int {
    let full = max_int(l.strip_max as int, 1);
    if raw == 0 {
        0
    } else {
        (min_int(raw as int, l.strip_max as int) * l.strip_leds + full - 1) / full
    }
}

/// The slot of segment `i`, in the direction in which the strip is filled.
pub open spec fn segment_slot(l: Layout, reversed: bool, i: int) -> int {
    if reversed {
        l.strip_led_base + (l.strip_leds - 1 - i)
    } else {
        l.strip_led_base + i
    }
}

/// The LED slots after the first `n` segments were set, of which `on` are lit.
pub open spec fn light_segments(
    leds: Lamps,
    l: Layout,
    reversed: bool,
    value: u8,
    on: int,
    n: int,
) -> Lamps
    decreases n,
{
    if n <= 0 {
        leds
    } else {
        lit_one(
            light_segments(leds, l, reversed, value, on, n - 1),
            segment_slot(l, reversed, n - 1),
            if n - 1 < on {
                value
            } else {
                0
            },
        )
    }
}

/// The LED slots after the strip's meter was set to a finger's position.
pub open spec fn light_strip_of(leds: Lamps, cfg: Config, l: Layout, raw: u16) -> Lamps {
    let t = cfg.touchstrip;
    if !cfg.leds.enabled || !t.leds {
        leds
    } else {
        light_segments(
            leds,
            l,
            l.strip_led_reversed != t.led_reversed,
            t.led_value,
            segments(l, raw),
            l.strip_leds as int,
        )
    }
}

/// The strip's field is reported.
pub open spec fn slide(x: Step, s: ControlState) -> Step {
    let t = x.st.cfg.touchstrip;
    let l = x.st.profile.layout;
    let raw = s.analog@[l.strip_field()];
    if raw == x.st.prev.analog@[l.strip_field()] {
        x
    } else {
        let v = scaled(raw, max_int(l.strip_max as int, 1));
        Step {
            st: if t.enabled {
                EngineState { outputs: OutputsView { strip: v, ..x.st.outputs }, ..x.st }
            } else {
                x.st
            },
            leds: light_strip_of(x.leds, x.st.cfg, l, raw),
            out: if t.enabled {
                x.out.push(Msg::Cc { ch: (t.channel - 1) as u8, cc: t.cc, val: v })
            } else {
                x.out
            },
        }
    }
}

/// What the first `n` pedals send: each whose field exists and changed, as a switch or scaled.
pub open spec fn pedals(st: EngineState, s: ControlState, n: int) -> Seq<Msg>
    decreases n,
{
    if n <= 0 {
        Seq::empty()
    } else {
        let p = st.cfg.pedal;
        let rest = pedals(st, s, n - 1);
        let at = st.profile.layout.pedal_analog_base + (n - 1);
        if at >= ANALOGS || s.analog@[at] == st.prev.analog@[at] {
            rest
        } else {
            let v = s.analog@[at];
            rest.push(
                Msg::Cc {
                    ch: (p.channel - 1) as u8,
                    cc: p.ccs@[n - 1],
                    val: if p.switch {
                        if v >= p.switch_threshold {
                            127
                        } else {
                            0
                        }
                    } else {
                        scaled(v, PAD_MAX as int)
                    },
                },
            )
        }
    }
}

/// The strip and the pedals are reported.
pub open spec fn analog(x: Step, s: ControlState) -> Step {
    let y = slide(x, s);
    if y.st.cfg.pedal.enabled {
        Step { out: y.out + pedals(y.st, s, y.st.cfg.pedal.ccs@.len() as int), ..y }
    } else {
        y
    }
}

// Reports.

/// The first report only establishes a baseline: it says where each knob happens to be sitting,
/// and nothing is sent.
pub open spec fn baseline(st: EngineState, s: ControlState) -> EngineState {
    EngineState {
        prev: s,
        have_prev: true,
        knobs: Seq::new(
            KNOBS as nat,
            |i: int| KnobState { raw: knob_position(s.knobs@[i]), ..st.knobs[i] },
        ),
        encoder_pos: st.cfg.encoder.initial as int,
        outputs: OutputsView {
            encoder: st.cfg.encoder.initial,
            knobs: if st.cfg.knobs.mode is Accumulate {
                Seq::new(KNOBS as nat, |i: int| st.cfg.knobs.initial)
            } else {
                st.outputs.knobs
            },
            ..st.outputs
        },
        ..st
    }
}

/// A report of all controls: the buttons, then the knobs, the encoder, and the analog fields.
pub open spec fn controls(x: Step, s: ControlState) -> Step {
    if !x.st.have_prev {
        Step { st: baseline(x.st, s), ..x }
    } else {
        let y = analog(turn_encoder(turn_from(fire_from(x, s, 0), s, 0), s), s);
        Step { st: EngineState { prev: s, ..y.st }, ..y }
    }
}

// Pads.

/// The byte of an idle pad.
pub open spec fn idle_byte(cfg: Config) -> u8 {
    colour_byte(cfg.pads.idle_colour, level_of(cfg.pads.idle_level))
}

/// 0..=3 as a level, saturating.
pub open spec fn level_of(v: u8) -> Level {
    if v == 0 {
        Level::Off
    } else if v == 1 {
        Level::Dim
    } else if v == 2 {
        Level::Normal
    } else {
        Level::Bright
    }
}

/// The LED slots after a pad's light was set.
pub open spec fn light_pad_of(
    leds: Lamps,
    cfg: Config,
    l: Layout,
    pad: int,
    active: bool,
) -> Lamps {
    if !cfg.leds.enabled {
        leds
    } else {
        lit_one(
            leds,
            l.pad_led_base + pad,
            if active {
                colour_byte(cfg.pads.active_colour, Level::Bright)
            } else {
                idle_byte(cfg)
            },
        )
    }
}

/// The messages with a note off for the note that a pad sounds, if it does.
pub open spec fn close_note(out: Seq<Msg>, ch: u8, pad: PadState) -> Seq<Msg> {
    match pad.sounding {
        Some(note) => out.push(Msg::NoteOff { ch, note, vel: 0 }),
        None => out,
    }
}

/// One pad event.
pub open spec fn strike(x: Step, h: PadHit) -> Step {
    let p = x.st.cfg.pads;
    let ch = (p.channel - 1) as u8;
    let l = x.st.profile.layout;
    let pad = h.pad as int;
    let was = x.st.pads[pad];
    let note = byte_at(p.notes@, pad);
    if pad >= PADS {
        x
    } else {
        match h.event {
            PadEvent::NoteOn => if h.value < p.threshold {
                x
            } else {
                Step {
                    st: EngineState {
                        pads: x.st.pads.update(pad, PadState { sounding: Some(note), ..was }),
                        ..x.st
                    },
                    leds: light_pad_of(x.leds, x.st.cfg, l, pad, true),
                    // A retrigger without an intervening off would leave a stuck note in the
                    // host, so the old one is closed first.
                    out: close_note(x.out, ch, was).push(
                        Msg::NoteOn { ch, note, vel: p.velocity_of(h.value) as u8 },
                    ),
                }
            },
            PadEvent::PressOn => if p.press_sends_note && was.sounding is None {
                Step {
                    st: EngineState {
                        pads: x.st.pads.update(pad, PadState { sounding: Some(note), ..was }),
                        ..x.st
                    },
                    leds: light_pad_of(x.leds, x.st.cfg, l, pad, true),
                    out: x.out.push(
                        Msg::NoteOn {
                            ch,
                            note,
                            vel: p.velocity_of(
                                if h.value == 0 {
                                    1
                                } else {
                                    h.value
                                },
                            ) as u8,
                        },
                    ),
                }
            } else {
                Step { leds: light_pad_of(x.leds, x.st.cfg, l, pad, true), ..x }
            },
            PadEvent::NoteOff | PadEvent::PressOff => {
                let closed = close_note(x.out, ch, was);
                Step {
                    st: EngineState { pads: x.st.pads.update(pad, fresh_pad()), ..x.st },
                    leds: light_pad_of(x.leds, x.st.cfg, l, pad, false),
                    out: if was.pressure != 0 && p.aftertouch is Poly {
                        closed.push(Msg::PolyAftertouch { ch, note, val: 0 })
                    } else {
                        closed
                    },
                }
            },
            // The device sends pressure for a resting finger too, and sometimes a frame before the
            // note on. It is held back until the pad is actually sounding.
            PadEvent::Aftertouch => {
                let v = p.pressure_of(h.value) as u8;
                if p.aftertouch is Off || was.sounding is None || v == was.pressure {
                    x
                } else {
                    Step {
                        st: EngineState {
                            pads: x.st.pads.update(pad, PadState { pressure: v, ..was }),
                            ..x.st
                        },
                        out: if p.aftertouch is Poly {
                            x.out.push(Msg::PolyAftertouch { ch, note, val: v })
                        } else {
                            x.out
                        },
                        ..x
                    }
                }
            },
        }
    }
}

/// The first `n` events of a report.
pub open spec fn strikes(x: Step, hits: Seq<PadHit>, n: int) -> Step
    decreases n,
{
    if n <= 0 {
        x
    } else {
        strike(strikes(x, hits, n - 1), hits[n - 1])
    }
}

/// The highest pressure among the first `n` pads.
pub open spec fn peak(pads: Seq<PadState>, n: int) -> u8
    decreases n,
{
    if n <= 0 {
        0
    } else {
        let rest = peak(pads, n - 1);
        if pads[n - 1].pressure > rest {
            pads[n - 1].pressure
        } else {
            rest
        }
    }
}

/// Channel pressure follows the hardest-pressed pad.
pub open spec fn press_channel(x: Step) -> Step {
    let p = x.st.cfg.pads;
    let top = peak(x.st.pads, PADS as int);
    if p.aftertouch is Channel && top != x.st.chan_pressure {
        Step {
            st: EngineState { chan_pressure: top, ..x.st },
            out: x.out.push(Msg::ChannelAftertouch { ch: (p.channel - 1) as u8, val: top }),
            ..x
        }
    } else {
        x
    }
}

/// A report of pad events.
pub open spec fn pads(x: Step, hits: Seq<PadHit>) -> Step {
    press_channel(strikes(x, hits, hits.len() as int))
}

// Painting, and what the host sends.

/// The LED slots after the first `n` pads were set idle.
pub open spec fn idle_pads(leds: Lamps, cfg: Config, l: Layout, n: int) -> Lamps
    decreases n,
{
    if n <= 0 {
        leds
    } else {
        lit_one(idle_pads(leds, cfg, l, n - 1), l.pad_led_base + (n - 1), idle_byte(cfg))
    }
}

/// The LED slots after the first `n` buttons were set idle. A button that is always lit is so at
/// the idle brightness.
pub open spec fn idle_buttons(
    leds: Lamps,
    cfg: LedCfg,
    v: Seq<CompiledButton>,
    n: int,
) -> Lamps
    decreases n,
{
    if n <= 0 {
        leds
    } else {
        let rest = idle_buttons(leds, cfg, v, n - 1);
        let b = v[n - 1];
        if b.led < 0 {
            rest
        } else {
            light_button(rest, cfg, b, false)
        }
    }
}

/// The idle LED picture, painted over what is there.
pub open spec fn idle_picture(st: EngineState, leds: Lamps) -> Lamps {
    if !st.cfg.leds.enabled {
        darkened(leds)
    } else {
        let l = st.profile.layout;
        idle_buttons(
            light_strip_of(idle_pads(leds, st.cfg, l, PADS as int), st.cfg, l, 0),
            st.cfg.leds,
            st.buttons,
            st.buttons.len() as int,
        )
    }
}

/// What a message from the host is about: the channel, whether it is a note, the number and the
/// value.
pub struct HostEvent {
    pub ch: u8,
    pub is_note: bool,
    pub num: u8,
    pub val: u8,
}

pub open spec fn host_event_of(m: Msg) -> Option<HostEvent> {
    match m {
        Msg::Cc { ch, cc, val } => Some(HostEvent { ch, is_note: false, num: cc, val }),
        Msg::NoteOn { ch, note, vel } => Some(HostEvent { ch, is_note: true, num: note, val: vel }),
        Msg::NoteOff { ch, note, .. } => Some(HostEvent { ch, is_note: true, num: note, val: 0 }),
        _ => None,
    }
}

/// Whether an event is on the address that an action sends to.
pub open spec fn addresses(ev: HostEvent, a: Action) -> bool {
    match a {
        Action::Cc { ch, cc, .. } => !ev.is_note && ch == ev.ch && cc == ev.num,
        Action::Note { ch, note, .. } => ev.is_note && ch == ev.ch && note == ev.num,
        _ => false,
    }
}

/// The LED slots after an event reached the first `n` buttons: those that mirror the host light
/// while their value is above 0.
pub open spec fn host_buttons(
    leds: Lamps,
    cfg: LedCfg,
    v: Seq<CompiledButton>,
    ev: HostEvent,
    n: int,
) -> Lamps
    decreases n,
{
    if n <= 0 {
        leds
    } else {
        let rest = host_buttons(leds, cfg, v, ev, n - 1);
        let b = v[n - 1];
        if b.led >= 0 && b.led_mode is Midi && addresses(ev, b.action) {
            light_button(rest, cfg, b, ev.val > 0)
        } else {
            rest
        }
    }
}

/// The first of the notes from `i` on that is `num`, or their number.
pub open spec fn first_note(notes: Seq<u8>, num: u8, i: int) -> int
    decreases notes.len() - i,
{
    if i >= notes.len() || notes[i] == num {
        i
    } else {
        first_note(notes, num, i + 1)
    }
}

/// The knobs after the host reported a value. In pickup mode a knob on that address lets go until
/// it has passed the host's value.
pub open spec fn host_knob(k: KnobCfg, st: KnobState, i: int, ev: HostEvent) -> KnobState {
    if k.mode is Absolute && k.pickup is Pickup && !ev.is_note && ev.ch == k.channel - 1 && i
        < k.ccs@.len() && k.ccs@[i] == ev.num {
        KnobState { last_sent: ev.val, seen: true, engaged: false, ..st }
    } else {
        st
    }
}

/// The LED slots after an event from the host.
pub open spec fn host_leds(st: EngineState, leds: Lamps, ev: HostEvent) -> Lamps {
    if !st.cfg.leds.enabled {
        leds
    } else {
        let after = host_buttons(
            leds,
            st.cfg.leds,
            st.buttons,
            ev,
            st.buttons.len() as int,
        );
        let notes = st.cfg.pads.notes@;
        let pad = first_note(notes, ev.num, 0);
        // Notes on the pad channel light the matching pad, so a sequencer playing back shows up
        // on the grid.
        if ev.is_note && ev.ch == st.cfg.pads.channel - 1 && pad < notes.len() {
            light_pad_of(after, st.cfg, st.profile.layout, pad, ev.val > 0)
        } else {
            after
        }
    }
}

/// A message from the host.
pub open spec fn host(x: Step, m: Msg) -> Step {
    match host_event_of(m) {
        None => x,
        Some(ev) => Step {
            st: EngineState {
                knobs: Seq::new(
                    KNOBS as nat,
                    |i: int| host_knob(x.st.cfg.knobs, x.st.knobs[i], i, ev),
                ),
                ..x.st
            },
            leds: host_leds(x.st, x.leds, ev),
            ..x
        },
    }
}

/// The LEDs after some writes: the slots, and whether there is something to flush, are those. What
/// was last written out is still known.
pub open spec fn lights(old: Leds, new: Leds, to: Lamps) -> bool {
    &&& new.lamps() == to
    &&& new.last_sent() == old.last_sent()
    &&& old.synced() ==> new.synced()
}

/// The mapping engine.
pub struct Engine {
    cfg: Config,
    profile: Profile,
    buttons: Vec<CompiledButton>,
    /// Fast path from a HID bit to an index into `buttons`; 255 means unmapped.
    bit_to_button: [u8; BUTTON_BITS],
    toggle: [bool; BUTTON_BITS],
    prev: ControlState,
    have_prev: bool,
    knobs: [KnobState; KNOBS],
    pads: [PadState; PADS],
    encoder_pos: i32,
    chan_pressure: u8,
    outputs: Outputs,
}

impl View for Engine {
    type V = EngineState;

    closed spec fn view(&self) -> EngineState {
        EngineState {
            cfg: self.cfg,
            profile: self.profile,
            buttons: self.buttons@,
            toggle: self.toggle@,
            prev: self.prev,
            have_prev: self.have_prev,
            knobs: self.knobs@,
            pads: self.pads@,
            encoder_pos: self.encoder_pos as int,
            chan_pressure: self.chan_pressure,
            outputs: self.outputs@,
        }
    }
}

/// The engine, the LEDs and the messages as one step.
pub open spec fn step(e: Engine, leds: Leds, out: Seq<Msg>) -> Step {
    Step { st: e@, leds: leds.lamps(), out }
}

fn level_from(v: u8) -> (r: Level)
    ensures
        r == level_of(v),
{
    match v {
        0 => Level::Off,
        1 => Level::Dim,
        2 => Level::Normal,
        _ => Level::Bright,
    }
}

/// Maps each bit to the place of its button.
fn map_bits(buttons: &Vec<CompiledButton>) -> (r: [u8; BUTTON_BITS])
    ensures
        maps_bits(r@, buttons@, min_int(buttons@.len() as int, MAX_BUTTONS as int)),
{
    let mut map: [u8; BUTTON_BITS] = [255; BUTTON_BITS];
    let mut i: usize = 0;
    while i < buttons.len() && i < MAX_BUTTONS
        invariant
            i <= buttons@.len(),
            i <= MAX_BUTTONS,
            maps_bits(map@, buttons@, i as int),
        decreases buttons@.len() - i,
    {
        let bit = buttons[i].bit;
        if bit < BUTTON_BITS {
            map[bit] = i as u8;
        }
        i += 1;
    }
    map
}

/// `map` gives for each bit the last of the first `n` buttons on it, or 255.
pub open spec fn maps_bits(map: Seq<u8>, v: Seq<CompiledButton>, n: int) -> bool {
    &&& map.len() == BUTTON_BITS
    &&& forall|bit: int|
        0 <= bit < BUTTON_BITS ==> match last_on_bit(v, bit, n) {
            Some(i) => #[trigger] map[bit] == i && i < 255,
            None => map[bit] == 255,
        }
}

proof fn lemma_last_on_bit(v: Seq<CompiledButton>, bit: int, n: int)
    ensures
        last_on_bit(v, bit, n) is Some ==> 0 <= last_on_bit(v, bit, n)->0 < n && v[last_on_bit(
            v,
            bit,
            n,
        )->0].bit == bit,
    decreases n,
{
    if n > 0 && v[n - 1].bit != bit {
        lemma_last_on_bit(v, bit, n - 1);
    }
}

impl Engine {
    /// The buttons can be found by bit.
    pub closed spec fn indexed(self) -> bool {
        maps_bits(
            self.bit_to_button@,
            self.buttons@,
            min_int(self.buttons@.len() as int, MAX_BUTTONS as int),
        )
    }

    /// What every engine keeps.
    pub open spec fn wf(self) -> bool {
        self@.wf() && self.indexed()
    }

    /// Build an engine for `cfg` running on `profile`.
    pub fn new(profile: Profile, cfg: Config) -> (r: Self)
        requires
            cfg.runs(),
            profile.layout.fits(),
        ensures
            r.wf(),
            r@ == fresh(profile, cfg, r@.prev),
            r@.prev.at_rest(),
    {
        let buttons = cfg.compiled_buttons(&profile);
        let bit_to_button = map_bits(&buttons);
        let knob = KnobState { raw: 0, last_sent: 0, engaged: false, seen: false, accum: 0 };
        let pad = PadState { sounding: None, pressure: 0 };
        let r = Engine {
            cfg,
            profile,
            buttons,
            bit_to_button,
            toggle: [false; BUTTON_BITS],
            prev: ControlState::default(),
            have_prev: false,
            knobs: [knob; KNOBS],
            pads: [pad; PADS],
            encoder_pos: 0,
            chan_pressure: 0,
            outputs: Outputs::default(),
        };
        assert(r.toggle@ =~= fresh(profile, cfg, r.prev).toggle);
        assert(r.knobs@ =~= fresh(profile, cfg, r.prev).knobs);
        assert(r.pads@ =~= fresh(profile, cfg, r.prev).pads);
        r
    }

    /// The values the engine last transmitted, for display.
    pub fn outputs(&self) -> (r: &Outputs)
        ensures
            r@ == self@.outputs,
    {
        &self.outputs
    }

    /// Swap in a new config, keeping nothing that could now be stale.
    ///
    /// Toggle latches are cleared deliberately: after an edit the host's idea of a toggle's state
    /// and ours can no longer be reconciled, and silently inverting a button is worse than
    /// resetting it. Where each knob is sitting is kept, so that one that does not move says
    /// nothing.
    pub fn reload(&mut self, cfg: Config)
        requires
            old(self).wf(),
            cfg.runs(),
        ensures
            final(self).wf(),
            final(self)@ == reloaded(old(self)@, cfg),
    {
        self.buttons = cfg.compiled_buttons(&self.profile);
        self.bit_to_button = map_bits(&self.buttons);
        self.cfg = cfg;
        let knob = KnobState { raw: 0, last_sent: 0, engaged: false, seen: false, accum: 0 };
        let pad = PadState { sounding: None, pressure: 0 };
        self.toggle = [false; BUTTON_BITS];
        self.knobs = [knob; KNOBS];
        self.pads = [pad; PADS];
        self.encoder_pos = 0;
        self.chan_pressure = 0;
        assert(self.toggle@ =~= fresh(self.profile, cfg, self.prev).toggle);
        assert(self.knobs@ =~= fresh(self.profile, cfg, self.prev).knobs);
        assert(self.pads@ =~= fresh(self.profile, cfg, self.prev).pads);
        self.outputs = Outputs::default();
        if self.have_prev {
            let mut i: usize = 0;
            while i < KNOBS
                invariant
                    i <= KNOBS,
                    self.wf(),
                    self.prev == old(self).prev,
                    self@ == (EngineState {
                        have_prev: true,
                        knobs: self.knobs@,
                        ..fresh(old(self)@.profile, cfg, old(self)@.prev)
                    }),
                    forall|k: int|
                        0 <= k < i ==> #[trigger] self.knobs@[k] == (KnobState {
                            raw: knob_position(self.prev.knobs@[k]),
                            ..fresh_knob()
                        }),
                    forall|k: int| i <= k < KNOBS ==> #[trigger] self.knobs@[k] == fresh_knob(),
                decreases KNOBS - i,
            {
                let raw: u16 = self.prev.knobs[i] % (KNOB_MAX + 1);
                self.knobs[i] = KnobState { raw, ..self.knobs[i] };
                i += 1;
            }
        }
        assert(self.knobs@ =~= reloaded(old(self)@, cfg).knobs);
    }

    /// Treat the next report as a first one again, after the device was away: what was held then
    /// says nothing of what is held now.
    pub fn forget_device_state(&mut self)
        requires
            old(self).wf(),
        ensures
            final(self).wf(),
            final(self)@ == (EngineState { have_prev: false, ..old(self)@ }),
    {
        self.have_prev = false;
    }

    /// The config currently in force.
    pub fn config(&self) -> (r: &Config)
        ensures
            *r == self@.cfg,
    {
        &self.cfg
    }

    /// The hardware description in force.
    pub fn profile(&self) -> (r: &Profile)
        ensures
            *r == self@.profile,
    {
        &self.profile
    }

    /// The LED byte for a button, honouring whether its slot is a colour one.
    ///
    /// Colour and monochrome LEDs share the output report but read their byte completely
    /// differently, so a single brightness ramp cannot serve both.
    fn button_led(&self, b: &CompiledButton, on: bool) -> (r: u8)
        ensures
            r == button_byte(self.cfg.leds, *b, on),
    {
        if b.led_mode == LedMode::Off {
            return 0;
        }
        if b.led_colour >= 0 {
            colour(
                #[verifier::truncate] (b.led_colour as u8),
                if on {
                    Level::Bright
                } else {
                    Level::Dim
                },
            )
        } else if on {
            mono(self.cfg.leds.button_active)
        } else {
            mono(self.cfg.leds.button_idle)
        }
    }

    /// Light the touch strip's LEDs up to the finger's position.
    ///
    /// A value of zero means no finger, which leaves the strip dark rather than lighting its first
    /// segment.
    fn light_strip(&self, raw: u16, leds: &mut Leds)
        ensures
            lights(
                *old(leds),
                *final(leds),
                light_strip_of(old(leds).lamps(), self.cfg, self.profile.layout, raw),
            ),
    {
        let t = &self.cfg.touchstrip;
        let l = &self.profile.layout;
        if !self.cfg.leds.enabled || !t.leds {
            return;
        }
        let full: u16 = if l.strip_max < 1 {
            1
        } else {
            l.strip_max
        };
        let reach: u16 = if raw < l.strip_max {
            raw
        } else {
            l.strip_max
        };
        let on: u128 = if raw == 0 {
            0
        } else {
            assert(reach * l.strip_leds <= 0xffff * usize::MAX) by (nonlinear_arith)
                requires
                    reach <= 0xffff,
                    l.strip_leds <= usize::MAX,
            ;
            // Round up so any contact lights at least one segment.
            (reach as u128 * l.strip_leds as u128 + full as u128 - 1) / full as u128
        };
        assert(on == segments(*l, raw));
        // The profile says which way the slots run; the config can flip it if a unit turns out to
        // be wired the other way.
        let reversed: bool = l.strip_led_reversed != t.led_reversed;
        let mut i: usize = 0;
        while i < l.strip_leds
            invariant
                i <= l.strip_leds,
                on == segments(*l, raw),
                *t == self.cfg.touchstrip,
                *l == self.profile.layout,
                reversed == (l.strip_led_reversed != t.led_reversed),
                lights(
                    *old(leds),
                    *leds,
                    light_segments(
                        old(leds).lamps(),
                        *l,
                        reversed,
                        t.led_value,
                        on as int,
                        i as int,
                    ),
                ),
            decreases l.strip_leds - i,
        {
            let away: usize = if reversed {
                l.strip_leds - 1 - i
            } else {
                i
            };
            let slot: usize = l.strip_led_base.saturating_add(away);
            leds.set(
                slot,
                if (i as u128) < on {
                    t.led_value
                } else {
                    0
                },
            );
            i += 1;
        }
    }

    fn light_pad(&self, pad: usize, active: bool, leds: &mut Leds)
        ensures
            lights(
                *old(leds),
                *final(leds),
                light_pad_of(
                    old(leds).lamps(),
                    self.cfg,
                    self.profile.layout,
                    pad as int,
                    active,
                ),
            ),
    {
        if !self.cfg.leds.enabled {
            return;
        }
        let p = &self.cfg.pads;
        let v = if active {
            colour(p.active_colour, Level::Bright)
        } else {
            colour(p.idle_colour, level_from(p.idle_level))
        };
        leds.set(self.profile.layout.pad_led_base.saturating_add(pad), v);
    }

    /// Paint the idle LED picture for the current config.
    pub fn paint_idle(&self, leds: &mut Leds)
        ensures
            lights(*old(leds), *final(leds), idle_picture(self@, old(leds).lamps())),
    {
        if !self.cfg.leds.enabled {
            leds.all_off();
            return;
        }
        let mut pad: usize = 0;
        while pad < PADS
            invariant
                pad <= PADS,
                lights(
                    *old(leds),
                    *leds,
                    idle_pads(old(leds).lamps(), self.cfg, self.profile.layout, pad as int),
                ),
            decreases PADS - pad,
        {
            let v = colour(self.cfg.pads.idle_colour, level_from(self.cfg.pads.idle_level));
            leds.set(self.profile.layout.pad_led_base.saturating_add(pad), v);
            pad += 1;
        }
        self.light_strip(0, leds);
        let ghost start = leds.lamps();
        let mut i: usize = 0;
        while i < self.buttons.len()
            invariant
                i <= self.buttons@.len(),
                lights(
                    *old(leds),
                    *leds,
                    idle_buttons(start, self.cfg.leds, self.buttons@, i as int),
                ),
            decreases self.buttons@.len() - i,
        {
            let b = &self.buttons[i];
            if b.led >= 0 {
                leds.set(b.led as usize, self.button_led(b, false));
            }
            i += 1;
        }
    }

    fn fire_button(&mut self, bit: usize, down: bool, leds: &mut Leds, out: &mut Vec<Msg>)
        requires
            old(self).wf(),
            bit < BUTTON_BITS,
        ensures
            final(self).wf(),
            step(*final(self), *final(leds), final(out)@) == fire(
                step(*old(self), *old(leds), old(out)@),
                bit as int,
                down,
            ),
            lights(*old(leds), *final(leds), final(leds).lamps()),
    {
        let idx = self.bit_to_button[bit];
        proof {
            lemma_last_on_bit(
                self.buttons@,
                bit as int,
                min_int(self.buttons@.len() as int, MAX_BUTTONS as int),
            );
            assert(self.bit_to_button@[bit as int] == idx);
        }
        if idx == 255 {
            return;
        }
        let ghost b0 = self.buttons@[idx as int];
        let mode = self.buttons[idx as usize].mode;
        let action = self.buttons[idx as usize].action;
        if mode == ButtonMode::Toggle && down {
            self.toggle[bit] = !self.toggle[bit];
        }
        let latched: bool = self.toggle[bit];
        assert(self.toggle@ =~= old(self).toggle@.update(
            bit as int,
            latch(b0, old(self).toggle@[bit as int], down),
        ));
        let (send, on) = match mode {
            ButtonMode::Momentary => (true, down),
            ButtonMode::Trigger => (down, true),
            ButtonMode::Toggle => (down, latched),
        };
        if send {
            if let Some(m) = action.message(on) {
                out.push(m);
            }
        }
        let b = &self.buttons[idx as usize];
        if self.cfg.leds.enabled && b.led >= 0 && b.led_mode == LedMode::Follow {
            let glow = match mode {
                ButtonMode::Toggle => latched,
                _ => down,
            };
            leds.set(b.led as usize, self.button_led(b, glow));
        }
    }

    fn scan_buttons(&mut self, s: &ControlState, leds: &mut Leds, out: &mut Vec<Msg>)
        requires
            old(self).wf(),
        ensures
            final(self).wf(),
            step(*final(self), *final(leds), final(out)@) == fire_from(
                step(*old(self), *old(leds), old(out)@),
                *s,
                0,
            ),
            final(self)@.prev == old(self)@.prev,
            lights(*old(leds), *final(leds), final(leds).lamps()),
    {
        let mut byte: usize = 0;
        while byte < 10
            invariant
                byte <= 10,
                self.wf(),
                self.prev == old(self).prev,
                fire_from(step(*self, *leds, out@), *s, 8 * byte) == fire_from(
                    step(*old(self), *old(leds), old(out)@),
                    *s,
                    0,
                ),
                lights(*old(leds), *leds, leds.lamps()),
            decreases 10 - byte,
        {
            if s.buttons[byte] == self.prev.buttons[byte] {
                proof {
                    lemma_quiet_byte(step(*self, *leds, out@), *s, byte as int);
                }
            } else {
                let mut b: usize = 0;
                while b < 8
                    invariant
                        b <= 8,
                        byte < 10,
                        self.wf(),
                        self.prev == old(self).prev,
                        fire_from(step(*self, *leds, out@), *s, 8 * byte + b) == fire_from(
                            step(*old(self), *old(leds), old(out)@),
                            *s,
                            0,
                        ),
                        lights(*old(leds), *leds, leds.lamps()),
                    decreases 8 - b,
                {
                    let bit: usize = byte * 8 + b;
                    let down = s.button(bit);
                    if down != self.prev.button(bit) {
                        self.fire_button(bit, down, leds, out);
                    }
                    b += 1;
                }
            }
            byte += 1;
        }
    }
}

/// What a new engine starts from, whatever it takes for the report before.
pub open spec fn fresh(profile: Profile, cfg: Config, prev: ControlState) -> EngineState {
    EngineState {
        cfg,
        profile,
        buttons: cfg.compiled_all(profile),
        toggle: Seq::new(BUTTON_BITS as nat, |i: int| false),
        prev,
        have_prev: false,
        knobs: Seq::new(KNOBS as nat, |i: int| fresh_knob()),
        pads: Seq::new(PADS as nat, |i: int| fresh_pad()),
        encoder_pos: 0,
        chan_pressure: 0,
        outputs: no_outputs(),
    }
}

/// What an engine is after a new config was swapped in: a new one, but for the report before and
/// where that has the knobs.
pub open spec fn reloaded(st: EngineState, cfg: Config) -> EngineState {
    EngineState {
        have_prev: st.have_prev,
        knobs: Seq::new(
            KNOBS as nat,
            |i: int|
                KnobState {
                    raw: if st.have_prev {
                        knob_position(st.prev.knobs@[i])
                    } else {
                        0
                    },
                    ..fresh_knob()
                },
        ),
        ..fresh(st.profile, cfg, st.prev)
    }
}

/// A byte of buttons that did not change fires nothing.
proof fn lemma_quiet_byte(x: Step, s: ControlState, byte: int)
    requires
        0 <= byte < 10,
        s.buttons@[byte] == x.st.prev.buttons@[byte],
    ensures
        fire_from(x, s, 8 * byte) == fire_from(x, s, 8 * byte + 8),
{
    lemma_quiet_bit(x, s, 8 * byte);
    lemma_quiet_bit(x, s, 8 * byte + 1);
    lemma_quiet_bit(x, s, 8 * byte + 2);
    lemma_quiet_bit(x, s, 8 * byte + 3);
    lemma_quiet_bit(x, s, 8 * byte + 4);
    lemma_quiet_bit(x, s, 8 * byte + 5);
    lemma_quiet_bit(x, s, 8 * byte + 6);
    lemma_quiet_bit(x, s, 8 * byte + 7);
}

proof fn lemma_quiet_bit(x: Step, s: ControlState, bit: int)
    requires
        0 <= bit < BUTTON_BITS,
        s.buttons@[bit / 8] == x.st.prev.buttons@[bit / 8],
    ensures
        fire_from(x, s, bit) == fire_from(x, s, bit + 1),
{
}

/// A value below 16384 as two control changes, the upper half first. Returns the upper half.
fn push_cc14(out: &mut Vec<Msg>, ch: u8, cc: u8, v: u32) -> (r: u8)
    requires
        v < 16384,
        cc < 224,
    ensures
        final(out)@ == old(out)@ + cc14(ch, cc, v as int),
        r == upper_half(v as int),
{
    let upper: u8 = (v / 128) as u8;
    out.push(Msg::Cc { ch, cc, val: upper });
    out.push(Msg::Cc { ch, cc: cc + 32, val: (v % 128) as u8 });
    assert(out@ =~= old(out)@ + cc14(ch, cc, v as int));
    upper
}

/// The value of a position.
fn value_at(now: u16) -> (r: u8)
    requires
        now < 1000,
    ensures
        r == position_value(now),
        r <= 127,
{
    ((now as u32 * 127) / KNOB_MAX as u32) as u8
}

fn byte_of(v: &Vec<u8>, i: usize) -> (r: u8)
    ensures
        r == byte_at(v@, i as int),
{
    if i < v.len() {
        v[i]
    } else {
        0
    }
}

/// Moves a knob by accumulating: the new state, and the value to show.
fn accumulate(
    k: &KnobCfg,
    cc: u8,
    st: KnobState,
    now: u16,
    delta: i32,
    out: &mut Vec<Msg>,
) -> (r: (KnobState, Option<u8>))
    requires
        k.channel >= 1,
        k.high_resolution ==> cc < 224,
        0 <= st.accum <= 0xffff,
        -1000 <= delta <= 1000,
    ensures
        r.0 == knob_accumulates(*k, cc, st, now, delta as int).st,
        r.1 == knob_accumulates(*k, cc, st, now, delta as int).shown,
        final(out)@ == old(out)@ + knob_accumulates(*k, cc, st, now, delta as int).out,
        0 <= r.0.accum <= 0xffff,
{
    let travel: i32 = if k.travel < 1 {
        1
    } else {
        k.travel as i32
    };
    let from: i32 = if st.seen {
        st.accum
    } else {
        assert(0 <= k.initial * travel <= 255 * 0xffff) by (nonlinear_arith)
            requires
                0 <= k.initial <= 255,
                0 <= travel <= 0xffff,
        ;
        (k.initial as i32 * travel) / 127
    };
    // Clamping here, rather than on the emitted value, is what stops the knob wrapping: once it is
    // pinned at an end, further turning in that direction accumulates nothing to unwind on the way
    // back.
    let sum: i32 = from + delta;
    let accum: i32 = if sum < 0 {
        0
    } else if sum > travel {
        travel
    } else {
        sum
    };
    proof {
        lemma_part_of(accum as int, travel as int, 127);
        lemma_part_of(accum as int, travel as int, 16383);
    }
    let v: u8 = ((accum * 127) / travel) as u8;
    if st.seen && v == st.last_sent {
        assert(out@ =~= old(out)@ + Seq::<Msg>::empty());
        return (KnobState { raw: now, accum, ..st }, None);
    }
    let ch: u8 = k.channel - 1;
    let shown: u8 = if k.high_resolution {
        let v14: i64 = (accum as i64 * 16383) / travel as i64;
        push_cc14(out, ch, cc, v14 as u32)
    } else {
        out.push(Msg::Cc { ch, cc, val: v });
        assert(out@ =~= old(out)@ + seq![Msg::Cc { ch, cc, val: v }]);
        v
    };
    (KnobState { raw: now, last_sent: v, seen: true, accum, ..st }, Some(shown))
}

/// A part of a whole, scaled to `full`, is at most `full`.
proof fn lemma_part_of(part: int, whole: int, full: int)
    requires
        0 <= part <= whole,
        whole > 0,
        full >= 0,
    ensures
        0 <= (part * full) / whole <= full,
        0 <= part * full <= whole * full,
{
    assert(0 <= part * full <= whole * full) by (nonlinear_arith)
        requires
            0 <= part <= whole,
            full >= 0,
    ;
    assert(0 <= (part * full) / whole <= full) by (nonlinear_arith)
        requires
            0 <= part * full <= whole * full,
            whole > 0,
    ;
}

/// Moves a knob by its position: the new state, and the value to show.
fn follow(
    k: &KnobCfg,
    cc: u8,
    st: KnobState,
    now: u16,
    out: &mut Vec<Msg>,
) -> (r: (KnobState, Option<u8>))
    requires
        k.channel >= 1,
        k.high_resolution ==> cc < 224,
        now < 1000,
        st.raw < 1000,
    ensures
        r.0 == knob_follows(*k, cc, st, now).st,
        r.1 == knob_follows(*k, cc, st, now).shown,
        final(out)@ == old(out)@ + knob_follows(*k, cc, st, now).out,
        r.0.accum == st.accum,
{
    let ch: u8 = k.channel - 1;
    if k.high_resolution {
        let shown = push_cc14(out, ch, cc, (now as u32 * 16383) / KNOB_MAX as u32);
        return (KnobState { raw: now, seen: true, ..st }, Some(shown));
    }
    let v: u8 = value_at(now);
    let mut engaged = st.engaged;
    if k.pickup == Pickup::Pickup && !st.engaged {
        if st.seen {
            let from: u8 = value_at(st.raw);
            let host: u8 = st.last_sent;
            let near = host as i32 - v as i32 <= 1 && v as i32 - host as i32 <= 1;
            let (low, high) = if from < v {
                (from, v)
            } else {
                (v, from)
            };
            let seam = st.raw as i32 + wrap_delta(st.raw, now, KNOB_MAX + 1) != now as i32;
            let passed = if seam {
                host <= low || high <= host
            } else {
                low <= host && host <= high
            };
            if !(near || passed) {
                assert(out@ =~= old(out)@ + Seq::<Msg>::empty());
                return (KnobState { raw: now, ..st }, None);
            }
        }
        engaged = true;
    }
    if st.seen && v == st.last_sent {
        assert(out@ =~= old(out)@ + Seq::<Msg>::empty());
        return (KnobState { raw: now, engaged, ..st }, None);
    }
    out.push(Msg::Cc { ch, cc, val: v });
    assert(out@ =~= old(out)@ + seq![Msg::Cc { ch, cc, val: v }]);
    (KnobState { raw: now, last_sent: v, engaged, seen: true, ..st }, Some(v))
}

/// Moves a knob to where it reports to be: the new state, and the value to show.
fn move_knob(
    k: &KnobCfg,
    cc: u8,
    st: KnobState,
    now: u16,
    out: &mut Vec<Msg>,
) -> (r: (KnobState, Option<u8>))
    requires
        k.channel >= 1,
        k.high_resolution ==> cc < 224,
        now < 1000,
        st.raw < 1000,
        0 <= st.accum <= 0xffff,
    ensures
        r.0 == knob_move(*k, cc, st, now).st,
        r.1 == knob_move(*k, cc, st, now).shown,
        final(out)@ == old(out)@ + knob_move(*k, cc, st, now).out,
        0 <= r.0.accum <= 0xffff,
        r.0.raw < 1000,
{
    // The knobs are endless, so movement is the short way round the 0..999 seam rather than a
    // plain subtraction.
    let delta: i32 = wrap_delta(st.raw, now, KNOB_MAX + 1);
    if delta < k.deadband as i32 && -(k.deadband as i32) < delta {
        assert(out@ =~= old(out)@ + Seq::<Msg>::empty());
        return (st, None);
    }
    match k.mode {
        KnobMode::Relative => {
            let eighth: i32 = if delta >= 0 {
                (delta + 7) / 8
            } else {
                -((7 - delta) / 8)
            };
            let val = k.relative_format.encode(eighth);
            let m = Msg::Cc { ch: k.channel - 1, cc, val };
            out.push(m);
            assert(out@ =~= old(out)@ + seq![m]);
            (KnobState { raw: now, seen: true, ..st }, Some(val))
        },
        KnobMode::Accumulate => accumulate(k, cc, st, now, delta, out),
        KnobMode::Absolute => follow(k, cc, st, now, out),
    }
}

impl Engine {
    fn scan_knobs(&mut self, s: &ControlState, out: &mut Vec<Msg>, Ghost(leds): Ghost<Lamps>)
        requires
            old(self).wf(),
        ensures
            final(self).wf(),
            (Step { st: final(self)@, leds, out: final(out)@ }) == turn_from(
                Step { st: old(self)@, leds, out: old(out)@ },
                *s,
                0,
            ),
            final(self)@.prev == old(self)@.prev,
    {
        let mut i: usize = 0;
        while i < KNOBS
            invariant
                i <= KNOBS,
                self.wf(),
                self.prev == old(self).prev,
                turn_from(Step { st: self@, leds, out: out@ }, *s, i as int) == turn_from(
                    Step { st: old(self)@, leds, out: old(out)@ },
                    *s,
                    0,
                ),
            decreases KNOBS - i,
        {
            let ghost before = Step { st: self@, leds, out: out@ };
            let now: u16 = s.knobs[i] % (KNOB_MAX + 1);
            let cc = byte_of(&self.cfg.knobs.ccs, i);
            let (st, shown) = move_knob(&self.cfg.knobs, cc, self.knobs[i], now, out);
            self.knobs[i] = st;
            if let Some(v) = shown {
                self.outputs.knobs[i] = v;
            }
            proof {
                let after = turn(before, *s, i as int);
                assert(self.knobs@ =~= after.st.knobs);
                assert(self.outputs.knobs@ =~= after.st.outputs.knobs);
            }
            i += 1;
        }
    }

    fn scan_encoder(&mut self, s: &ControlState, out: &mut Vec<Msg>, Ghost(leds): Ghost<Lamps>)
        requires
            old(self).wf(),
        ensures
            final(self).wf(),
            (Step { st: final(self)@, leds, out: final(out)@ }) == turn_encoder(
                Step { st: old(self)@, leds, out: old(out)@ },
                *s,
            ),
            final(self)@.prev == old(self)@.prev,
    {
        let d: i64 = nibble_delta(self.prev.encoder_lo, s.encoder_lo) as i64;
        if d == 0 {
            return;
        }
        let e = &self.cfg.encoder;
        assert(-0x4_0000_0000 <= d * e.step <= 0x4_0000_0000) by (nonlinear_arith)
            requires
                -7 <= d <= 8,
                -0x8000_0000 <= e.step <= 0x7fff_ffff,
        ;
        let step: i64 = d * e.step as i64;
        match e.mode {
            KnobMode::Relative => {
                let part: i32 = if step < -63 {
                    -63
                } else if step > 63 {
                    63
                } else {
                    step as i32
                };
                let val = e.relative_format.encode(part);
                out.push(Msg::Cc { ch: e.channel - 1, cc: e.cc, val });
                self.outputs.encoder = val;
            },
            // The encoder has no end stops either, so both of the other modes integrate and clamp;
            // "absolute" is kept as a spelling of the same thing because it is the more obvious
            // name to reach for.
            KnobMode::Absolute | KnobMode::Accumulate => {
                let sum: i64 = self.encoder_pos as i64 + step;
                let pos: i32 = if sum < 0 {
                    0
                } else if sum > 127 {
                    127
                } else {
                    sum as i32
                };
                if pos != self.encoder_pos {
                    out.push(Msg::Cc { ch: e.channel - 1, cc: e.cc, val: pos as u8 });
                    self.encoder_pos = pos;
                    self.outputs.encoder = pos as u8;
                }
            },
        }
    }

    fn scan_analog(&mut self, s: &ControlState, leds: &mut Leds, out: &mut Vec<Msg>)
        requires
            old(self).wf(),
        ensures
            final(self).wf(),
            step(*final(self), *final(leds), final(out)@) == analog(
                step(*old(self), *old(leds), old(out)@),
                *s,
            ),
            final(self)@.prev == old(self)@.prev,
            lights(*old(leds), *final(leds), final(leds).lamps()),
    {
        let last: usize = self.profile.layout.analog_count - 1;
        let src: usize = if self.profile.layout.strip_analog < last {
            self.profile.layout.strip_analog
        } else {
            last
        };
        if s.analog[src] != self.prev.analog[src] {
            let full: u16 = if self.profile.layout.strip_max < 1 {
                1
            } else {
                self.profile.layout.strip_max
            };
            let v: u8 = scale(s.analog[src], full);
            let t = &self.cfg.touchstrip;
            if t.enabled {
                out.push(Msg::Cc { ch: t.channel - 1, cc: t.cc, val: v });
                self.outputs.strip = v;
            }
            self.light_strip(s.analog[src], leds);
        }
        let ghost mid = step(*self, *leds, out@);
        assert(mid == slide(step(*old(self), *old(leds), old(out)@), *s));
        let p = &self.cfg.pedal;
        if p.enabled {
            let ghost start = out@;
            let mut i: usize = 0;
            assert(out@ =~= start + pedals(mid.st, *s, 0));
            while i < p.ccs.len()
                invariant
                    i <= p.ccs@.len(),
                    *p == self.cfg.pedal,
                    p.channel >= 1,
                    self@ == mid.st,
                    out@ =~= start + pedals(mid.st, *s, i as int),
                decreases p.ccs@.len() - i,
            {
                let at: usize = self.profile.layout.pedal_analog_base.saturating_add(i);
                if at < ANALOGS && s.analog[at] != self.prev.analog[at] {
                    let v: u16 = s.analog[at];
                    let val: u8 = if p.switch {
                        if v >= p.switch_threshold {
                            127
                        } else {
                            0
                        }
                    } else {
                        scale(v, PAD_MAX)
                    };
                    out.push(Msg::Cc { ch: p.channel - 1, cc: p.ccs[i], val });
                }
                i += 1;
            }
        }
    }

    /// Handle report `0x01`. Emits through `out`, updates `leds`.
    pub fn on_controls(&mut self, s: &ControlState, leds: &mut Leds, out: &mut Vec<Msg>)
        requires
            old(self).wf(),
        ensures
            final(self).wf(),
            step(*final(self), *final(leds), final(out)@) == controls(
                step(*old(self), *old(leds), old(out)@),
                *s,
            ),
            lights(*old(leds), *final(leds), final(leds).lamps()),
    {
        if !self.have_prev {
            // First report only establishes a baseline. Emitting here would fire every held button
            // and every knob position at startup.
            self.prev = *s;
            self.have_prev = true;
            let mut i: usize = 0;
            let ghost knobs = self.knobs@;
            while i < KNOBS
                invariant
                    i <= KNOBS,
                    knobs == old(self).knobs@,
                    self.wf(),
                    self@ == (EngineState {
                        prev: *s,
                        have_prev: true,
                        knobs: self.knobs@,
                        ..old(self)@
                    }),
                    forall|k: int|
                        0 <= k < i ==> #[trigger] self.knobs@[k] == (KnobState {
                            raw: knob_position(s.knobs@[k]),
                            ..knobs[k]
                        }),
                    forall|k: int| i <= k < KNOBS ==> #[trigger] self.knobs@[k] == knobs[k],
                decreases KNOBS - i,
            {
                // Record where each knob happens to be sitting, but leave `seen` clear so
                // accumulate mode picks up its configured starting value on the first real
                // movement.
                let raw: u16 = s.knobs[i] % (KNOB_MAX + 1);
                let ghost st = self@;
                self.knobs[i] = KnobState { raw, ..self.knobs[i] };
                proof {
                    assert(self@.knobs =~= st.knobs.update(
                        i as int,
                        KnobState { raw, ..st.knobs[i as int] },
                    ));
                }
                i += 1;
            }
            self.encoder_pos = self.cfg.encoder.initial as i32;
            self.outputs.encoder = self.cfg.encoder.initial;
            if self.cfg.knobs.mode == KnobMode::Accumulate {
                self.outputs.knobs = [self.cfg.knobs.initial; KNOBS];
                assert(self.outputs.knobs@ =~= baseline(old(self)@, *s).outputs.knobs);
            }
            assert(self.knobs@ =~= baseline(old(self)@, *s).knobs);
            return;
        }
        self.scan_buttons(s, leds, out);
        self.scan_knobs(s, out, Ghost(leds.lamps()));
        self.scan_encoder(s, out, Ghost(leds.lamps()));
        self.scan_analog(s, leds, out);
        self.prev = *s;
    }

    fn strike_pad(&mut self, h: PadHit, leds: &mut Leds, out: &mut Vec<Msg>)
        requires
            old(self).wf(),
        ensures
            final(self).wf(),
            step(*final(self), *final(leds), final(out)@) == strike(
                step(*old(self), *old(leds), old(out)@),
                h,
            ),
            lights(*old(leds), *final(leds), final(leds).lamps()),
    {
        let ghost before = step(*self, *leds, out@);
        let pad: usize = h.pad as usize;
        if pad >= PADS {
            return;
        }
        let ch: u8 = self.cfg.pads.channel - 1;
        let note = byte_of(&self.cfg.pads.notes, pad);
        let was: PadState = self.pads[pad];
        match h.event {
            PadEvent::NoteOn => {
                if h.value < self.cfg.pads.threshold {
                    return;
                }
                // A retrigger without an intervening off would leave a stuck note in the host, so
                // close the old one first.
                if let Some(prev) = was.sounding {
                    out.push(Msg::NoteOff { ch, note: prev, vel: 0 });
                }
                out.push(Msg::NoteOn { ch, note, vel: self.cfg.pads.velocity(h.value) });
                self.pads[pad] = PadState { sounding: Some(note), ..was };
                self.light_pad(pad, true, leds);
                assert(self.pads@ =~= strike(before, h).st.pads);
            },
            PadEvent::PressOn => {
                self.light_pad(pad, true, leds);
                if self.cfg.pads.press_sends_note && was.sounding.is_none() {
                    let value: u16 = if h.value < 1 {
                        1
                    } else {
                        h.value
                    };
                    out.push(Msg::NoteOn { ch, note, vel: self.cfg.pads.velocity(value) });
                    self.pads[pad] = PadState { sounding: Some(note), ..was };
                    assert(self.pads@ =~= strike(before, h).st.pads);
                }
            },
            PadEvent::NoteOff | PadEvent::PressOff => {
                if let Some(prev) = was.sounding {
                    out.push(Msg::NoteOff { ch, note: prev, vel: 0 });
                }
                if was.pressure != 0 && self.cfg.pads.aftertouch == Aftertouch::Poly {
                    out.push(Msg::PolyAftertouch { ch, note, val: 0 });
                }
                self.pads[pad] = PadState { sounding: None, pressure: 0 };
                self.light_pad(pad, false, leds);
                assert(self.pads@ =~= strike(before, h).st.pads);
            },
            PadEvent::Aftertouch => {
                // The device sends pressure for a resting finger too, and sometimes a frame before
                // the note on. Sending key pressure for a note the host was never told about
                // confuses samplers, so it is held back until the pad is actually sounding.
                if self.cfg.pads.aftertouch == Aftertouch::Off || was.sounding.is_none() {
                    return;
                }
                let v: u8 = self.cfg.pads.pressure(h.value);
                if v == was.pressure {
                    return;
                }
                self.pads[pad] = PadState { pressure: v, ..was };
                if self.cfg.pads.aftertouch == Aftertouch::Poly {
                    out.push(Msg::PolyAftertouch { ch, note, val: v });
                }
                assert(self.pads@ =~= strike(before, h).st.pads);
            },
        }
    }

    /// Handle report `0x02`.
    pub fn on_pads(&mut self, hits: &[PadHit], leds: &mut Leds, out: &mut Vec<Msg>)
        requires
            old(self).wf(),
        ensures
            final(self).wf(),
            step(*final(self), *final(leds), final(out)@) == pads(
                step(*old(self), *old(leds), old(out)@),
                hits@,
            ),
            lights(*old(leds), *final(leds), final(leds).lamps()),
    {
        let mut i: usize = 0;
        while i < hits.len()
            invariant
                i <= hits@.len(),
                self.wf(),
                step(*self, *leds, out@) == strikes(
                    step(*old(self), *old(leds), old(out)@),
                    hits@,
                    i as int,
                ),
                lights(*old(leds), *leds, leds.lamps()),
            decreases hits@.len() - i,
        {
            self.strike_pad(hits[i], leds, out);
            i += 1;
        }
        if self.cfg.pads.aftertouch == Aftertouch::Channel {
            let mut top: u8 = 0;
            let mut pad: usize = 0;
            while pad < PADS
                invariant
                    pad <= PADS,
                    top == peak(self.pads@, pad as int),
                decreases PADS - pad,
            {
                if self.pads[pad].pressure > top {
                    top = self.pads[pad].pressure;
                }
                pad += 1;
            }
            if top != self.chan_pressure {
                self.chan_pressure = top;
                out.push(Msg::ChannelAftertouch { ch: self.cfg.pads.channel - 1, val: top });
            }
        }
    }

    /// Apply a MIDI message arriving from the host to the LED surface.
    ///
    /// Buttons with `led_mode = "midi"` light when the host sends a non-zero value on their own
    /// address, which is how a DAW drives a transport LED. In pickup mode a value for a knob is
    /// the one that the knob has to pass before it is heard again.
    pub fn on_host_midi(&mut self, m: Msg, leds: &mut Leds)
        requires
            old(self).wf(),
        ensures
            final(self).wf(),
            step(*final(self), *final(leds), Seq::empty()) == host(
                step(*old(self), *old(leds), Seq::empty()),
                m,
            ),
            lights(*old(leds), *final(leds), final(leds).lamps()),
    {
        let ev = match m {
            Msg::Cc { ch, cc, val } => HostEvent { ch, is_note: false, num: cc, val },
            Msg::NoteOn { ch, note, vel } => HostEvent { ch, is_note: true, num: note, val: vel },
            Msg::NoteOff { ch, note, .. } => HostEvent { ch, is_note: true, num: note, val: 0 },
            _ => {
                return;
            },
        };
        self.host_knobs(&ev);
        if !self.cfg.leds.enabled {
            return;
        }
        let mut i: usize = 0;
        while i < self.buttons.len()
            invariant
                i <= self.buttons@.len(),
                lights(
                    *old(leds),
                    *leds,
                    host_buttons(
                        old(leds).lamps(),
                        self.cfg.leds,
                        self.buttons@,
                        ev,
                        i as int,
                    ),
                ),
            decreases self.buttons@.len() - i,
        {
            let b = &self.buttons[i];
            if b.led >= 0 && b.led_mode == LedMode::Midi {
                let hit = match b.action {
                    Action::Cc { ch, cc, .. } => !ev.is_note && ch == ev.ch && cc == ev.num,
                    Action::Note { ch, note, .. } => ev.is_note && ch == ev.ch && note == ev.num,
                    _ => false,
                };
                if hit {
                    leds.set(b.led as usize, self.button_led(b, ev.val > 0));
                }
            }
            i += 1;
        }
        // Notes on the pad channel light the matching pad, so a sequencer playing back shows up on
        // the grid.
        if ev.is_note && ev.ch == self.cfg.pads.channel - 1 {
            let notes = &self.cfg.pads.notes;
            let mut pad: usize = 0;
            while pad < notes.len() && notes[pad] != ev.num
                invariant
                    pad <= notes@.len(),
                    first_note(notes@, ev.num, 0) == first_note(notes@, ev.num, pad as int),
                decreases notes@.len() - pad,
            {
                pad += 1;
            }
            if pad < notes.len() {
                self.light_pad(pad, ev.val > 0, leds);
            }
        }
    }

    fn host_knobs(&mut self, ev: &HostEvent)
        requires
            old(self).wf(),
        ensures
            final(self).wf(),
            final(self)@ == (EngineState {
                knobs: Seq::new(
                    KNOBS as nat,
                    |i: int| host_knob(old(self)@.cfg.knobs, old(self)@.knobs[i], i, *ev),
                ),
                ..old(self)@
            }),
    {
        let mut i: usize = 0;
        let ghost knobs = self.knobs@;
        while i < KNOBS
            invariant
                i <= KNOBS,
                knobs == old(self).knobs@,
                self.wf(),
                self@ == (EngineState { knobs: self.knobs@, ..old(self)@ }),
                forall|k: int|
                    0 <= k < i ==> #[trigger] self.knobs@[k] == host_knob(
                        self.cfg.knobs,
                        knobs[k],
                        k,
                        *ev,
                    ),
                forall|k: int| i <= k < KNOBS ==> #[trigger] self.knobs@[k] == knobs[k],
            decreases KNOBS - i,
        {
            let k = &self.cfg.knobs;
            if k.mode == KnobMode::Absolute && k.pickup == Pickup::Pickup && !ev.is_note && ev.ch
                == k.channel - 1 && i < k.ccs.len() && k.ccs[i] == ev.num {
                let ghost st = self@;
                self.knobs[i] = KnobState {
                    last_sent: ev.val,
                    seen: true,
                    engaged: false,
                    ..self.knobs[i]
                };
                proof {
                    assert(self@.knobs =~= st.knobs.update(
                        i as int,
                        KnobState {
                            last_sent: ev.val,
                            seen: true,
                            engaged: false,
                            ..st.knobs[i as int]
                        },
                    ));
                }
            }
            i += 1;
        }
        assert(self.knobs@ =~= Seq::new(
            KNOBS as nat,
            |i: int| host_knob(old(self)@.cfg.knobs, old(self)@.knobs[i], i, *ev),
        ));
    }
}

/// A reading out of `full` as a 7-bit value.
fn scale(v: u16, full: u16) -> (r: u8)
    requires
        full > 0,
    ensures
        r == scaled(v, full as int),
        r <= 127,
{
    let reach: u16 = if v < full {
        v
    } else {
        full
    };
    proof {
        lemma_part_of(reach as int, full as int, 127);
    }
    ((reach as u32 * 127) / full as u32) as u8
}

} // verus!
