//! What holds of every engine, whatever it is configured to do.
//!
//! Each law is stated over the functions by which the engine's methods say what they do.
use crate::config::{compiled, Action, CompiledButton, Config, LedCfg};
use crate::engine::{
    addresses, analog, button_byte, button_on, byte_at, cc14, close_note, controls, fire, fire_from,
    first_note, fresh, host, host_buttons, host_event_of, host_leds, idle_buttons, idle_byte,
    idle_pads, idle_picture, knob_move, knob_position, last_on_bit, light_segments, light_strip_of,
    pads, passes, peak, pedals, press_channel, reloaded, scaled, segment_slot, segments, slide,
    strike, strikes, turn, turn_encoder, turn_from, upper_half, EngineState, HostEvent, KnobState,
    OutputsView, PadState, Step,
};
use crate::hid::{short_way, ControlState, PadEvent, PadHit, BUTTON_BITS, KNOBS, PADS};
use crate::leds::{colour_byte, mono_byte, Lamps, Level, LED_COUNT};
use crate::midi::Msg;
use crate::profile::{Layout, Profile};
use vstd::prelude::*;

verus! {

// What each part of a report leaves alone.

pub(crate) proof fn lemma_fire_from(x: Step, s: ControlState, bit: int)
    ensures
        fire_from(x, s, bit).st == (EngineState {
            toggle: fire_from(x, s, bit).st.toggle,
            ..x.st
        }),
        !x.st.cfg.leds.enabled ==> fire_from(x, s, bit).leds == x.leds,
    decreases BUTTON_BITS - bit,
{
    if bit < BUTTON_BITS {
        if s.held(bit) != x.st.prev.held(bit) {
            lemma_fire_from(fire(x, bit, s.held(bit)), s, bit + 1);
        } else {
            lemma_fire_from(x, s, bit + 1);
        }
    }
}

/// Knob `i` after a report.
pub(crate) open spec fn knob_after(x: Step, s: ControlState, i: int) -> KnobState {
    let k = x.st.cfg.knobs;
    knob_move(k, byte_at(k.ccs@, i), x.st.knobs[i], knob_position(s.knobs@[i])).st
}

pub(crate) proof fn lemma_turn_from(x: Step, s: ControlState, i: int)
    requires
        0 <= i,
        x.st.knobs.len() == KNOBS,
    ensures
        ({
            let y = turn_from(x, s, i);
            &&& y.st == (EngineState { knobs: y.st.knobs, outputs: y.st.outputs, ..x.st })
            &&& y.leds == x.leds
            &&& y.st.knobs.len() == KNOBS
            &&& forall|j: int| 0 <= j < i && j < KNOBS ==> #[trigger] y.st.knobs[j] == x.st.knobs[j]
            &&& forall|j: int| i <= j < KNOBS ==> #[trigger] y.st.knobs[j] == knob_after(x, s, j)
        }),
    decreases KNOBS - i,
{
    if i < KNOBS {
        lemma_turn_from(turn(x, s, i), s, i + 1);
    }
}

proof fn lemma_turn_encoder(x: Step, s: ControlState)
    ensures
        ({
            let y = turn_encoder(x, s);
            &&& y.st == (EngineState {
                encoder_pos: y.st.encoder_pos,
                outputs: y.st.outputs,
                ..x.st
            })
            &&& y.leds == x.leds
        }),
{
}

proof fn lemma_analog(x: Step, s: ControlState)
    ensures
        ({
            let y = analog(x, s);
            &&& y.st == (EngineState { outputs: y.st.outputs, ..x.st })
            &&& !x.st.cfg.leds.enabled ==> y.leds == x.leds
        }),
{
}

/// The first report after the start sends nothing and lights nothing, whatever is held down.
pub proof fn law_first_report_is_silent(x: Step, s: ControlState)
    requires
        !x.st.have_prev,
    ensures
        controls(x, s).out == x.out,
        controls(x, s).leds == x.leds,
        controls(x, s).st.have_prev,
{
}

/// A report leaves the config, the profile and the pads as they were, and becomes the report
/// before.
pub proof fn law_controls_frame(x: Step, s: ControlState)
    requires
        x.st.knobs.len() == KNOBS,
    ensures
        controls(x, s).st.cfg == x.st.cfg,
        controls(x, s).st.profile == x.st.profile,
        controls(x, s).st.buttons == x.st.buttons,
        controls(x, s).st.pads == x.st.pads,
        controls(x, s).st.chan_pressure == x.st.chan_pressure,
        controls(x, s).st.prev == s,
        controls(x, s).st.have_prev,
        controls(x, s).st.knobs.len() == KNOBS,
        !x.st.cfg.leds.enabled ==> controls(x, s).leds == x.leds,
{
    if x.st.have_prev {
        let a = fire_from(x, s, 0);
        let b = turn_from(a, s, 0);
        let c = turn_encoder(b, s);
        lemma_fire_from(x, s, 0);
        lemma_turn_from(a, s, 0);
        lemma_turn_encoder(b, s);
        lemma_analog(c, s);
    }
}

/// Every knob has been heard: it is where the report says, or within the deadband of it.
pub open spec fn settled(st: EngineState, s: ControlState) -> bool {
    &&& st.knobs.len() == KNOBS
    &&& forall|i: int| 0 <= i < KNOBS ==> #[trigger] knob_settled(st, s, i)
}

pub open spec fn knob_settled(st: EngineState, s: ControlState, i: int) -> bool {
    let now = knob_position(s.knobs@[i]);
    let d = short_way(st.knobs[i].raw as int, now as int, 1000);
    st.knobs[i].raw == now || -st.cfg.knobs.deadband < d < st.cfg.knobs.deadband
}

/// After a report every knob has been heard.
pub proof fn law_reports_settle(x: Step, s: ControlState)
    requires
        x.st.knobs.len() == KNOBS,
    ensures
        settled(controls(x, s).st, s),
{
    let y = controls(x, s);
    if x.st.have_prev {
        let a = fire_from(x, s, 0);
        let b = turn_from(a, s, 0);
        let c = turn_encoder(b, s);
        lemma_fire_from(x, s, 0);
        lemma_turn_from(a, s, 0);
        lemma_turn_encoder(b, s);
        lemma_analog(c, s);
        assert forall|i: int| 0 <= i < KNOBS implies #[trigger] knob_settled(y.st, s, i) by {
            assert(b.st.knobs[i] == knob_after(a, s, i));
        }
    }
}

pub(crate) proof fn lemma_fire_none(x: Step, s: ControlState, bit: int)
    requires
        x.st.prev == s,
    ensures
        fire_from(x, s, bit) == x,
    decreases BUTTON_BITS - bit,
{
    if bit < BUTTON_BITS {
        lemma_fire_none(x, s, bit + 1);
    }
}

pub(crate) proof fn lemma_turn_none(x: Step, s: ControlState, i: int)
    requires
        0 <= i,
        settled(x.st, s),
        x.st.cfg.knobs.deadband > 0,
    ensures
        turn_from(x, s, i) == x,
    decreases KNOBS - i,
{
    if i < KNOBS {
        assert(knob_settled(x.st, s, i));
        let y = turn(x, s, i);
        assert(y.st.knobs =~= x.st.knobs);
        assert(y.out =~= x.out);
        lemma_turn_none(x, s, i + 1);
    }
}

pub(crate) proof fn lemma_pedals_none(st: EngineState, s: ControlState, n: int)
    requires
        st.prev == s,
    ensures
        pedals(st, s, n) == Seq::<Msg>::empty(),
    decreases n,
{
    if n > 0 {
        lemma_pedals_none(st, s, n - 1);
    }
}

/// A report that repeats the one before changes nothing, sends nothing and leaves nothing to write
/// out, as long as there is a deadband.
pub proof fn law_repeated_report_is_silent(x: Step, s: ControlState)
    requires
        x.st.knobs.len() == KNOBS,
        x.st.cfg.knobs.deadband > 0,
    ensures
        controls(controls(x, s), s) == controls(x, s),
{
    let y = controls(x, s);
    law_controls_frame(x, s);
    law_reports_settle(x, s);
    lemma_fire_none(y, s, 0);
    lemma_turn_none(y, s, 0);
    lemma_pedals_none(y.st, s, y.st.cfg.pedal.ccs@.len() as int);
    assert(y.st.have_prev);
    let z = analog(turn_encoder(turn_from(fire_from(y, s, 0), s, 0), s), s);
    assert(z.out =~= y.out);
}

/// A reload is silent: the report that came before it, if it comes again, changes nothing and sends
/// nothing, as long as there is a deadband.
pub proof fn law_reload_is_silent(st: EngineState, cfg: Config, leds: Lamps, out: Seq<Msg>)
    requires
        st.have_prev,
        cfg.knobs.deadband > 0,
    ensures
        ({
            let x = Step { st: reloaded(st, cfg), leds, out };
            controls(x, st.prev) == x
        }),
{
    let s = st.prev;
    let x = Step { st: reloaded(st, cfg), leds, out };
    assert forall|i: int| 0 <= i < KNOBS implies #[trigger] knob_settled(x.st, s, i) by {}
    lemma_fire_none(x, s, 0);
    lemma_turn_none(x, s, 0);
    lemma_pedals_none(x.st, s, x.st.cfg.pedal.ccs@.len() as int);
    let z = analog(turn_encoder(turn_from(fire_from(x, s, 0), s, 0), s), s);
    assert(z.out =~= x.out);
}

// What is shown.

/// What is shown for a knob is what it was last sent: a knob that sends shows the value that goes
/// to its own controller, and one that sends nothing shows what it did.
pub proof fn law_knobs_show_what_was_sent(x: Step, s: ControlState, i: int)
    requires
        0 <= i < KNOBS,
        x.st.outputs.knobs.len() == KNOBS,
    ensures
        ({
            let k = x.st.cfg.knobs;
            let y = turn(x, s, i);
            let shown = y.st.outputs.knobs[i];
            &&& y.out == x.out ==> y.st.outputs == x.st.outputs
            &&& y.out != x.out ==> y.out[x.out.len() as int] == (Msg::Cc {
                ch: (k.channel - 1) as u8,
                cc: byte_at(k.ccs@, i),
                val: shown,
            })
            &&& y.st.outputs == (OutputsView {
                knobs: x.st.outputs.knobs.update(i, shown),
                ..x.st.outputs
            })
        }),
{
    let k = x.st.cfg.knobs;
    let m = knob_move(k, byte_at(k.ccs@, i), x.st.knobs[i], knob_position(s.knobs@[i]));
    let y = turn(x, s, i);
    if m.out.len() == 0 {
        assert(y.out =~= x.out);
        assert(y.st.outputs.knobs.update(i, y.st.outputs.knobs[i]) =~= y.st.outputs.knobs);
    } else {
        assert(y.out[x.out.len() as int] == m.out[0]);
        assert(y.out.len() > x.out.len());
    }
}

/// What is shown for the encoder is what was last sent for it.
pub proof fn law_the_encoder_shows_what_was_sent(x: Step, s: ControlState)
    ensures
        ({
            let e = x.st.cfg.encoder;
            let y = turn_encoder(x, s);
            &&& y.out == x.out ==> y.st.outputs == x.st.outputs
            &&& y.out != x.out ==> y.out == x.out.push(
                Msg::Cc { ch: (e.channel - 1) as u8, cc: e.cc, val: y.st.outputs.encoder },
            )
            &&& y.st.outputs == (OutputsView {
                encoder: y.st.outputs.encoder,
                ..x.st.outputs
            })
        }),
{
    let y = turn_encoder(x, s);
    if y != x {
        assert(y.out.len() > x.out.len());
    }
}

/// What is shown for the touch strip is what was last sent for it.
pub proof fn law_the_strip_shows_what_was_sent(x: Step, s: ControlState)
    ensures
        ({
            let t = x.st.cfg.touchstrip;
            let y = slide(x, s);
            &&& y.out == x.out ==> y.st.outputs == x.st.outputs
            &&& y.out != x.out ==> y.out == x.out.push(
                Msg::Cc { ch: (t.channel - 1) as u8, cc: t.cc, val: y.st.outputs.strip },
            )
            &&& y.st.outputs == (OutputsView { strip: y.st.outputs.strip, ..x.st.outputs })
        }),
{
    let y = slide(x, s);
    if y.st != x.st {
        assert(y.out.len() > x.out.len());
    }
}

// Buttons.

/// A button that is always lit idles at the idle brightness, and never at the active one. No button
/// behind it has its slot.
pub proof fn law_always_lit_means_idle(
    leds: Lamps,
    cfg: LedCfg,
    v: Seq<CompiledButton>,
    n: int,
    i: int,
)
    requires
        0 <= i < n <= v.len(),
        leds.bytes.len() == LED_COUNT,
        v[i].led_mode is Always,
        v[i].led_colour < 0,
        0 <= v[i].led < LED_COUNT,
        forall|j: int| i < j < n ==> (#[trigger] v[j]).led != v[i].led,
    ensures
        idle_buttons(leds, cfg, v, n).bytes[v[i].led as int] == mono_byte(cfg.button_idle),
        idle_buttons(leds, cfg, v, n).bytes.len() == LED_COUNT,
    decreases n,
{
    if i < n - 1 {
        law_always_lit_means_idle(leds, cfg, v, n - 1, i);
    } else {
        lemma_idle_buttons_len(leds, cfg, v, i);
    }
}

proof fn lemma_idle_buttons_len(leds: Lamps, cfg: LedCfg, v: Seq<CompiledButton>, n: int)
    requires
        leds.bytes.len() == LED_COUNT,
    ensures
        idle_buttons(leds, cfg, v, n).bytes.len() == leds.bytes.len(),
    decreases n,
{
    if n > 0 {
        lemma_idle_buttons_len(leds, cfg, v, n - 1);
    }
}

/// A toggle flips on a press and on nothing else, and two presses bring it back.
pub proof fn law_toggle_needs_two_presses(x: Step, bit: int, i: int)
    requires
        0 <= bit < BUTTON_BITS,
        x.st.toggle.len() == BUTTON_BITS,
        button_on(x.st.buttons, bit) == Some(i),
        x.st.buttons[i].mode is Toggle,
    ensures
        fire(x, bit, true).st.toggle[bit] == !x.st.toggle[bit],
        fire(x, bit, false).st.toggle == x.st.toggle,
        fire(x, bit, false).out == x.out,
        fire(fire(x, bit, true), bit, true).st.toggle == x.st.toggle,
{
    assert(fire(x, bit, false).st.toggle =~= x.st.toggle);
    assert(fire(fire(x, bit, true), bit, true).st.toggle =~= x.st.toggle);
}

/// A momentary button sends its on message on the press and its off message on the release.
pub proof fn law_momentary_sends_both_ways(x: Step, bit: int, i: int, down: bool)
    requires
        button_on(x.st.buttons, bit) == Some(i),
        x.st.buttons[i].mode is Momentary,
    ensures
        match x.st.buttons[i].action.sends(down) {
            Some(m) => fire(x, bit, down).out == x.out.push(m),
            None => fire(x, bit, down).out == x.out,
        },
{
}

/// A trigger button never sends on a release.
pub proof fn law_trigger_is_silent_on_release(x: Step, bit: int, i: int)
    requires
        button_on(x.st.buttons, bit) == Some(i),
        x.st.buttons[i].mode is Trigger,
    ensures
        fire(x, bit, false).out == x.out,
{
}

/// A bit that nothing is bound to does nothing.
pub proof fn law_unbound_bits_do_nothing(x: Step, bit: int, down: bool)
    requires
        button_on(x.st.buttons, bit) is None,
    ensures
        fire(x, bit, down) == x,
{
}

// Knobs.

proof fn lemma_value_order(a: int, b: int, whole: int, full: int)
    requires
        0 <= a <= b <= whole,
        whole > 0,
        full >= 0,
    ensures
        0 <= (a * full) / whole <= (b * full) / whole <= full,
{
    assert(0 <= a * full <= b * full <= whole * full) by (nonlinear_arith)
        requires
            0 <= a <= b <= whole,
            full >= 0,
    ;
    vstd::arithmetic::div_mod::lemma_div_is_ordered(a * full, b * full, whole);
    vstd::arithmetic::div_mod::lemma_div_is_ordered(0, a * full, whole);
    vstd::arithmetic::div_mod::lemma_div_is_ordered(b * full, whole * full, whole);
    vstd::arithmetic::div_mod::lemma_div_multiples_vanish(full, whole);
    assert(whole * full == full * whole) by (nonlinear_arith);
    vstd::arithmetic::div_mod::lemma_div_basics(whole);
}

/// The value of an accumulating knob.
pub open spec fn accumulated(travel: u16, accum: int) -> int {
    (accum * 127) / (travel as int)
}

/// An accumulating knob behaves like one with end stops. Turning up never lowers its value and
/// turning down never raises it, also across the seam of the position that it reports; at an end
/// it stays, and from there it comes straight back.
pub proof fn law_knobs_clamp(cfg: Config, cc: u8, st: KnobState, now: u16)
    requires
        cfg.knobs.mode is Accumulate,
        cfg.knobs.travel > 0,
        st.seen,
        0 <= st.accum <= cfg.knobs.travel,
    ensures
        ({
            let travel = cfg.knobs.travel;
            let d = short_way(st.raw as int, now as int, 1000);
            let m = knob_move(cfg.knobs, cc, st, now);
            let before = accumulated(travel, st.accum as int);
            let after = accumulated(travel, m.st.accum as int);
            &&& 0 <= m.st.accum <= travel
            &&& 0 <= after <= 127
            &&& d >= 0 ==> before <= after
            &&& d <= 0 ==> after <= before
            &&& st.accum == travel && d >= 0 ==> m.st.accum == travel
            &&& st.accum == 0 && d <= 0 ==> m.st.accum == 0
            &&& (d >= cfg.knobs.deadband || -d >= cfg.knobs.deadband) && 0 <= st.accum + d
                <= travel ==> m.st.accum == st.accum + d
            &&& m.shown is Some && !cfg.knobs.high_resolution ==> m.shown->0 == after
        }),
{
    let travel = cfg.knobs.travel as int;
    let m = knob_move(cfg.knobs, cc, st, now);
    crate::hid::law_short_way(st.raw as int, now as int, 1000);
    lemma_value_order(0, st.accum as int, travel, 127);
    lemma_value_order(0, m.st.accum as int, travel, 127);
    if m.st.accum >= st.accum {
        lemma_value_order(st.accum as int, m.st.accum as int, travel, 127);
    } else {
        lemma_value_order(m.st.accum as int, st.accum as int, travel, 127);
    }
}

/// A movement within the deadband is not heard and not forgotten: the knob's state stays.
pub proof fn law_deadband_suppresses_jitter(cfg: Config, cc: u8, st: KnobState, now: u16)
    requires
        -cfg.knobs.deadband < short_way(st.raw as int, now as int, 1000) < cfg.knobs.deadband,
    ensures
        knob_move(cfg.knobs, cc, st, now).st == st,
        knob_move(cfg.knobs, cc, st, now).out == Seq::<Msg>::empty(),
{
}

/// In pickup mode a knob that has let go is silent until it reaches or passes the host's value.
pub proof fn law_pickup_waits_for_the_host(cfg: Config, cc: u8, st: KnobState, now: u16)
    requires
        cfg.knobs.mode is Absolute,
        cfg.knobs.pickup is Pickup,
        !cfg.knobs.high_resolution,
        st.seen,
        !st.engaged,
        !passes(st.raw, now, st.last_sent),
    ensures
        knob_move(cfg.knobs, cc, st, now).out == Seq::<Msg>::empty(),
        !knob_move(cfg.knobs, cc, st, now).st.engaged,
        knob_move(cfg.knobs, cc, st, now).st.last_sent == st.last_sent,
{
}

/// The two halves of a high-resolution value make up the value.
pub proof fn law_high_resolution_halves(ch: u8, cc: u8, v: int)
    requires
        0 <= v < 16384,
        cc < 224,
    ensures
        cc14(ch, cc, v).len() == 2,
        cc14(ch, cc, v)[0] == (Msg::Cc { ch, cc, val: upper_half(v) }),
        upper_half(v) == v / 128,
        cc14(ch, cc, v)[1] == (Msg::Cc { ch, cc: (cc + 32) as u8, val: (v % 128) as u8 }),
        (v / 128) * 128 + v % 128 == v,
        0 <= v / 128 < 128,
        0 <= v % 128 < 128,
{
}

// The encoder.

/// The encoder stays within 0..127 and says nothing once it is pinned at an end.
pub proof fn law_encoder_clamps(x: Step, s: ControlState)
    requires
        !(x.st.cfg.encoder.mode is Relative),
        0 <= x.st.encoder_pos <= 127,
    ensures
        ({
            let d = short_way(x.st.prev.encoder_lo as int, s.encoder_lo as int, 16)
                * x.st.cfg.encoder.step;
            let y = turn_encoder(x, s);
            &&& 0 <= y.st.encoder_pos <= 127
            &&& x.st.encoder_pos == 127 && d >= 0 ==> y == x
            &&& x.st.encoder_pos == 0 && d <= 0 ==> y == x
            &&& y.st.encoder_pos == x.st.encoder_pos ==> y.out == x.out
        }),
{
    let d = short_way(x.st.prev.encoder_lo as int, s.encoder_lo as int, 16);
    assert(0 * x.st.cfg.encoder.step == 0);
}

// The touch strip.

proof fn lemma_segments(l: Layout, raw: u16)
    requires
        l.strip_max > 0,
    ensures
        0 <= segments(l, raw) <= l.strip_leds,
        raw > 0 && l.strip_leds > 0 ==> segments(l, raw) >= 1,
        raw >= l.strip_max ==> segments(l, raw) == l.strip_leds,
{
    let full = l.strip_max as int;
    let n = l.strip_leds as int;
    let r = if raw < l.strip_max {
        raw as int
    } else {
        full
    };
    let top = r * n + full - 1;
    assert(0 <= r * n <= full * n) by (nonlinear_arith)
        requires
            0 <= r <= full,
            n >= 0,
    ;
    assert(top / full <= n) by (nonlinear_arith)
        requires
            top <= full * n + full - 1,
            full > 0,
    ;
    assert(0 <= top / full) by (nonlinear_arith)
        requires
            top >= 0,
            full > 0,
    ;
    if raw > 0 && n > 0 {
        assert(r * n >= 1) by (nonlinear_arith)
            requires
                r >= 1,
                n >= 1,
        ;
        assert(top / full >= 1) by (nonlinear_arith)
            requires
                top >= full,
                full > 0,
        ;
    }
    if r == full {
        assert(top / full >= n) by (nonlinear_arith)
            requires
                top >= full * n,
                full > 0,
        ;
    }
}

/// No finger leaves the strip dark, any contact lights at least one segment, full deflection lights
/// all of them, and there are never more lit than exist.
pub proof fn law_strip_meter(l: Layout, raw: u16)
    requires
        l.strip_max > 0,
        l.strip_leds > 0,
    ensures
        segments(l, 0) == 0,
        raw > 0 ==> segments(l, raw) >= 1,
        raw >= l.strip_max ==> segments(l, raw) == l.strip_leds,
        0 <= segments(l, raw) <= l.strip_leds,
{
    lemma_segments(l, raw);
}

/// Every segment shows whether the meter reaches it, and no slot outside the strip is touched.
pub proof fn law_strip_shows_the_meter(
    leds: Lamps,
    l: Layout,
    reversed: bool,
    value: u8,
    on: int,
    n: int,
)
    requires
        leds.bytes.len() == crate::leds::LED_COUNT,
        0 <= n <= l.strip_leds,
        l.strip_led_end() <= crate::leds::LED_COUNT,
    ensures
        ({
            let after = light_segments(leds, l, reversed, value, on, n);
            &&& after.bytes.len() == leds.bytes.len()
            &&& forall|i: int|
                0 <= i < n ==> #[trigger] after.bytes[segment_slot(l, reversed, i)] == if i < on {
                    value
                } else {
                    0
                }
            &&& forall|k: int|
                0 <= k < leds.bytes.len() && !(l.strip_led_base <= k < l.strip_led_end())
                    ==> #[trigger] after.bytes[k] == leds.bytes[k]
        }),
    decreases n,
{
    if n > 0 {
        law_strip_shows_the_meter(leds, l, reversed, value, on, n - 1);
    }
}

// Pads.

/// How many note ons there are more than note offs.
pub open spec fn notes_open(out: Seq<Msg>) -> int
    decreases out.len(),
{
    if out.len() == 0 {
        0
    } else {
        notes_open(out.drop_last()) + match out.last() {
            Msg::NoteOn { .. } => 1int,
            Msg::NoteOff { .. } => -1int,
            _ => 0int,
        }
    }
}

/// How many of the first `n` pads sound.
pub open spec fn pads_sounding(pads: Seq<PadState>, n: int) -> int
    decreases n,
{
    if n <= 0 {
        0
    } else {
        pads_sounding(pads, n - 1) + if pads[n - 1].sounding is Some {
            1int
        } else {
            0int
        }
    }
}

proof fn lemma_notes_open_push(out: Seq<Msg>, m: Msg)
    ensures
        notes_open(out.push(m)) == notes_open(out) + match m {
            Msg::NoteOn { .. } => 1int,
            Msg::NoteOff { .. } => -1int,
            _ => 0int,
        },
{
    assert(out.push(m).drop_last() =~= out);
}

proof fn lemma_pads_sounding_update(pads: Seq<PadState>, pad: int, p: PadState, n: int)
    requires
        0 <= pad < pads.len(),
        0 <= n <= pads.len(),
    ensures
        pads_sounding(pads.update(pad, p), n) == pads_sounding(pads, n) + if pad < n {
            (if p.sounding is Some {
                1int
            } else {
                0int
            }) - (if pads[pad].sounding is Some {
                1int
            } else {
                0int
            })
        } else {
            0int
        },
    decreases n,
{
    if n > 0 {
        lemma_pads_sounding_update(pads, pad, p, n - 1);
    }
}

proof fn lemma_strike_balances(x: Step, h: PadHit)
    requires
        x.st.pads.len() == PADS,
    ensures
        notes_open(strike(x, h).out) - notes_open(x.out) == pads_sounding(
            strike(x, h).st.pads,
            PADS as int,
        ) - pads_sounding(x.st.pads, PADS as int),
        strike(x, h).st.pads.len() == PADS,
        strike(x, h).st == (EngineState { pads: strike(x, h).st.pads, ..x.st }),
{
    let y = strike(x, h);
    let pad = h.pad as int;
    if pad < PADS {
        let p = x.st.cfg.pads;
        let ch = (p.channel - 1) as u8;
        let was = x.st.pads[pad];
        let closed = close_note(x.out, ch, was);
        if let Some(note) = was.sounding {
            lemma_notes_open_push(x.out, Msg::NoteOff { ch, note, vel: 0 });
        }
        lemma_pads_sounding_update(x.st.pads, pad, y.st.pads[pad], PADS as int);
        assert(y.st.pads =~= x.st.pads.update(pad, y.st.pads[pad]));
        if y.out.len() > 0 {
            assert(y.out.drop_last().push(y.out.last()) =~= y.out);
            lemma_notes_open_push(y.out.drop_last(), y.out.last());
        }
        match h.event {
            PadEvent::NoteOn => {
                if h.value >= p.threshold {
                    assert(y.out.drop_last() =~= closed);
                }
            },
            PadEvent::PressOn => {
                if p.press_sends_note && was.sounding is None {
                    assert(y.out.drop_last() =~= x.out);
                }
            },
            PadEvent::NoteOff | PadEvent::PressOff => {
                if was.pressure != 0 && p.aftertouch is Poly {
                    assert(y.out.drop_last() =~= closed);
                } else {
                    assert(y.out == closed);
                }
            },
            PadEvent::Aftertouch => {
                if y.out != x.out {
                    assert(y.out.drop_last() =~= x.out);
                }
            },
        }
    }
}

proof fn lemma_strikes_balance(x: Step, hits: Seq<PadHit>, n: int)
    requires
        x.st.pads.len() == PADS,
        0 <= n <= hits.len(),
    ensures
        notes_open(strikes(x, hits, n).out) - notes_open(x.out) == pads_sounding(
            strikes(x, hits, n).st.pads,
            PADS as int,
        ) - pads_sounding(x.st.pads, PADS as int),
        strikes(x, hits, n).st == (EngineState { pads: strikes(x, hits, n).st.pads, ..x.st }),
        strikes(x, hits, n).st.pads.len() == PADS,
    decreases n,
{
    if n > 0 {
        lemma_strikes_balance(x, hits, n - 1);
        lemma_strike_balances(strikes(x, hits, n - 1), hits[n - 1]);
    }
}

/// No note is left stuck, and none is ended that was not begun: over any report of pad events, the
/// note ons that were not yet answered by a note off are exactly the pads that sound.
pub proof fn law_notes_balance(x: Step, hits: Seq<PadHit>)
    requires
        x.st.pads.len() == PADS,
        notes_open(x.out) == pads_sounding(x.st.pads, PADS as int),
    ensures
        notes_open(pads(x, hits).out) == pads_sounding(pads(x, hits).st.pads, PADS as int),
        pads(x, hits).st.pads.len() == PADS,
{
    let n = hits.len() as int;
    lemma_strikes_balance(x, hits, n);
    let y = strikes(x, hits, n);
    let z = press_channel(y);
    if z.out != y.out {
        lemma_notes_open_push(y.out, z.out.last());
        assert(z.out =~= y.out.push(z.out.last()));
    }
}

/// A pad that is hit again first ends the note that it sounds; a note off ends the note that was
/// sounding, under its own number; and a pad that does not sound is not ended.
pub proof fn law_note_off_matches_note_on(x: Step, h: PadHit)
    requires
        h.pad < PADS,
        h.event.ends(),
        x.st.pads.len() == PADS,
    ensures
        ({
            let ch = (x.st.cfg.pads.channel - 1) as u8;
            let y = strike(x, h);
            &&& y.st.pads[h.pad as int].sounding is None
            &&& y.st.pads[h.pad as int].pressure == 0
            &&& match x.st.pads[h.pad as int].sounding {
                Some(note) => y.out.len() > x.out.len() && y.out[x.out.len() as int]
                    == (Msg::NoteOff { ch, note, vel: 0 }),
                None => forall|i: int|
                    x.out.len() <= i < y.out.len() ==> !(#[trigger] y.out[i] is NoteOff),
            }
        }),
{
}

/// Pressure is held back until the pad sounds.
pub proof fn law_no_pressure_before_the_note(x: Step, h: PadHit)
    requires
        h.pad < PADS,
        h.event is Aftertouch,
        x.st.pads[h.pad as int].sounding is None,
    ensures
        strike(x, h) == x,
{
}

/// Whether a note was begun and not ended yet, by the messages so far.
pub open spec fn open_after(out: Seq<Msg>, n: u8) -> bool
    decreases out.len(),
{
    if out.len() == 0 {
        false
    } else {
        match out.last() {
            Msg::NoteOn { note, .. } if note == n => true,
            Msg::NoteOff { note, .. } if note == n => false,
            _ => open_after(out.drop_last(), n),
        }
    }
}

/// The messages for note `n` come in order: note ons and note offs alternate, starting with a note
/// on, all on channel `c` and with a velocity above 0, and pressure comes only in between.
pub open spec fn orderly(out: Seq<Msg>, c: u8, n: u8) -> bool
    decreases out.len(),
{
    if out.len() == 0 {
        true
    } else {
        let before = out.drop_last();
        &&& orderly(before, c, n)
        &&& match out.last() {
            Msg::NoteOn { ch, note, vel } if note == n => ch == c && 1 <= vel <= 127
                && !open_after(before, n),
            Msg::NoteOff { ch, note, .. } if note == n => ch == c && open_after(before, n),
            Msg::PolyAftertouch { ch, note, val } if note == n && val > 0 => ch == c && open_after(
                before,
                n,
            ),
            _ => true,
        }
    }
}

/// The notes of the pads differ from one another.
pub open spec fn notes_differ(notes: Seq<u8>) -> bool {
    forall|i: int, j: int|
        0 <= i < j < notes.len() ==> #[trigger] notes[i] != #[trigger] notes[j]
}

/// The messages so far are in order for every pad, and the pads know which notes are open.
pub open spec fn pads_in_order(x: Step) -> bool {
    let p = x.st.cfg.pads;
    &&& x.st.pads.len() == PADS
    &&& forall|i: int|
        #![trigger x.st.pads[i]]
        0 <= i < PADS ==> {
            &&& orderly(x.out, (p.channel - 1) as u8, p.notes@[i])
            &&& open_after(x.out, p.notes@[i]) == (x.st.pads[i].sounding is Some)
            &&& x.st.pads[i].sounding is Some ==> x.st.pads[i].sounding == Some(p.notes@[i])
        }
}

proof fn lemma_orderly_push(out: Seq<Msg>, m: Msg, c: u8, n: u8)
    ensures
        open_after(out.push(m), n) == (match m {
            Msg::NoteOn { note, .. } if note == n => true,
            Msg::NoteOff { note, .. } if note == n => false,
            _ => open_after(out, n),
        }),
        orderly(out.push(m), c, n) == (orderly(out, c, n) && match m {
            Msg::NoteOn { ch, note, vel } if note == n => ch == c && 1 <= vel <= 127
                && !open_after(out, n),
            Msg::NoteOff { ch, note, .. } if note == n => ch == c && open_after(out, n),
            Msg::PolyAftertouch { ch, note, val } if note == n && val > 0 => ch == c && open_after(
                out,
                n,
            ),
            _ => true,
        }),
{
    assert(out.push(m).drop_last() =~= out);
    assert(out.push(m).last() == m);
}

proof fn lemma_strike_in_order(x: Step, h: PadHit)
    requires
        x.st.cfg.valid(),
        notes_differ(x.st.cfg.pads.notes@),
        pads_in_order(x),
    ensures
        pads_in_order(strike(x, h)),
        strike(x, h).st == (EngineState { pads: strike(x, h).st.pads, ..x.st }),
{
    let y = strike(x, h);
    let p = x.st.cfg.pads;
    let ch = (p.channel - 1) as u8;
    let pad = h.pad as int;
    assert(p.notes@.len() == PADS);
    if pad < PADS {
        let was = x.st.pads[pad];
        let note = p.notes@[pad];
        assert(byte_at(p.notes@, pad) == note);
        let closed = close_note(x.out, ch, was);
        assert forall|i: int|
            #![trigger y.st.pads[i]]
            0 <= i < PADS implies {
            &&& orderly(y.out, ch, p.notes@[i])
            &&& open_after(y.out, p.notes@[i]) == (y.st.pads[i].sounding is Some)
            &&& y.st.pads[i].sounding is Some ==> y.st.pads[i].sounding == Some(p.notes@[i])
        } by {
            let n = p.notes@[i];
            assert(x.st.pads[i].sounding is Some ==> x.st.pads[i].sounding == Some(n));
            if i != pad {
                assert(n != note);
            }
            lemma_orderly_push(x.out, Msg::NoteOff { ch, note, vel: 0 }, ch, n);
            match h.event {
                PadEvent::NoteOn => {
                    let m = Msg::NoteOn { ch, note, vel: p.velocity_of(h.value) as u8 };
                    lemma_orderly_push(closed, m, ch, n);
                },
                PadEvent::PressOn => {
                    let v = if h.value == 0 {
                        1
                    } else {
                        h.value
                    };
                    let m = Msg::NoteOn { ch, note, vel: p.velocity_of(v) as u8 };
                    lemma_orderly_push(x.out, m, ch, n);
                },
                PadEvent::NoteOff | PadEvent::PressOff => {
                    lemma_orderly_push(closed, Msg::PolyAftertouch { ch, note, val: 0 }, ch, n);
                },
                PadEvent::Aftertouch => {
                    let v = p.pressure_of(h.value) as u8;
                    lemma_orderly_push(x.out, Msg::PolyAftertouch { ch, note, val: v }, ch, n);
                },
            }
        }
    }
}

proof fn lemma_strikes_in_order(x: Step, hits: Seq<PadHit>, n: int)
    requires
        x.st.cfg.valid(),
        notes_differ(x.st.cfg.pads.notes@),
        pads_in_order(x),
        0 <= n <= hits.len(),
    ensures
        pads_in_order(strikes(x, hits, n)),
        strikes(x, hits, n).st == (EngineState { pads: strikes(x, hits, n).st.pads, ..x.st }),
    decreases n,
{
    if n > 0 {
        lemma_strikes_in_order(x, hits, n - 1);
        lemma_strike_in_order(strikes(x, hits, n - 1), hits[n - 1]);
    }
}

/// Every report of pad events keeps the messages in order.
pub proof fn law_reports_keep_notes_in_order(x: Step, hits: Seq<PadHit>)
    requires
        x.st.cfg.valid(),
        notes_differ(x.st.cfg.pads.notes@),
        pads_in_order(x),
    ensures
        pads_in_order(pads(x, hits)),
        pads(x, hits).st.cfg == x.st.cfg,
{
    let n = hits.len() as int;
    lemma_strikes_in_order(x, hits, n);
    let y = strikes(x, hits, n);
    let z = press_channel(y);
    let p = x.st.cfg.pads;
    assert forall|i: int|
        #![trigger z.st.pads[i]]
        0 <= i < PADS implies {
        &&& orderly(z.out, (p.channel - 1) as u8, p.notes@[i])
        &&& open_after(z.out, p.notes@[i]) == (z.st.pads[i].sounding is Some)
        &&& z.st.pads[i].sounding is Some ==> z.st.pads[i].sounding == Some(p.notes@[i])
    } by {
        assert(y.st.pads[i] == z.st.pads[i]);
        let ch = (p.channel - 1) as u8;
        let top = peak(y.st.pads, PADS as int);
        lemma_orderly_push(y.out, Msg::ChannelAftertouch { ch, val: top }, ch, p.notes@[i]);
    }
}

/// What an engine has done after the first `n` of some reports of pad events.
pub open spec fn played(x: Step, reports: Seq<Seq<PadHit>>, n: int) -> Step
    decreases n,
{
    if n <= 0 {
        x
    } else {
        pads(played(x, reports, n - 1), reports[n - 1])
    }
}

proof fn lemma_played(x: Step, reports: Seq<Seq<PadHit>>, n: int)
    requires
        x.st.cfg.valid(),
        notes_differ(x.st.cfg.pads.notes@),
        pads_in_order(x),
    ensures
        pads_in_order(played(x, reports, n)),
        played(x, reports, n).st.cfg == x.st.cfg,
    decreases n,
{
    if n > 0 {
        lemma_played(x, reports, n - 1);
        law_reports_keep_notes_in_order(played(x, reports, n - 1), reports[n - 1]);
    }
}

/// Of all that a new engine sends for any reports of pad events, the note ons and note offs of each
/// pad alternate, starting with a note on, on the pads' channel and with velocities of 1..127, and
/// its pressure comes only while its note sounds. The pads have notes of their own.
pub proof fn law_pad_notes_alternate(
    profile: Profile,
    cfg: Config,
    prev: ControlState,
    leds: Lamps,
    reports: Seq<Seq<PadHit>>,
    n: int,
    pad: int,
)
    requires
        cfg.valid(),
        notes_differ(cfg.pads.notes@),
        0 <= pad < PADS,
    ensures
        ({
            let x = Step { st: fresh(profile, cfg, prev), leds, out: Seq::empty() };
            let y = played(x, reports, n);
            let note = cfg.pads.notes@[pad];
            &&& orderly(y.out, (cfg.pads.channel - 1) as u8, note)
            &&& open_after(y.out, note) == (y.st.pads[pad].sounding is Some)
        }),
{
    let x = Step { st: fresh(profile, cfg, prev), leds, out: Seq::empty() };
    lemma_played(x, reports, n);
    assert(played(x, reports, n).st.pads[pad] == played(x, reports, n).st.pads[pad]);
}

/// Hits below the threshold are dropped.
pub proof fn law_threshold_drops_hits(x: Step, h: PadHit)
    requires
        h.event is NoteOn,
        h.value < x.st.cfg.pads.threshold,
    ensures
        strike(x, h) == x,
{
}

/// Pad events touch only the pads' own LED slots, and none where LEDs are off.
pub proof fn law_pads_light_only_their_block(x: Step, hits: Seq<PadHit>, n: int)
    requires
        0 <= n <= hits.len(),
        x.st.pads.len() == PADS,
        x.leds.bytes.len() == crate::leds::LED_COUNT,
    ensures
        ({
            let y = strikes(x, hits, n);
            let base = x.st.profile.layout.pad_led_base;
            &&& y.leds.bytes.len() == x.leds.bytes.len()
            &&& !x.st.cfg.leds.enabled ==> y.leds == x.leds
            &&& forall|k: int|
                0 <= k < x.leds.bytes.len() && !(base <= k < base + PADS)
                    ==> #[trigger] y.leds.bytes[k] == x.leds.bytes[k]
        }),
    decreases n,
{
    if n > 0 {
        law_pads_light_only_their_block(x, hits, n - 1);
        lemma_strikes_balance(x, hits, n - 1);
    }
}

/// With channel aftertouch the value last sent is always the pressure of the hardest-pressed pad.
pub proof fn law_channel_pressure_is_the_peak(x: Step, hits: Seq<PadHit>)
    requires
        x.st.cfg.pads.aftertouch is Channel,
        x.st.pads.len() == PADS,
    ensures
        pads(x, hits).st.chan_pressure == peak(pads(x, hits).st.pads, PADS as int),
{
    lemma_strikes_balance(x, hits, hits.len() as int);
}

// Change tracking.

/// What was to be written out still is, and where nothing is to be, nothing changed.
pub open spec fn marks(before: Lamps, after: Lamps) -> bool {
    &&& before.changed ==> after.changed
    &&& !after.changed ==> after == before
}

proof fn lemma_fire_marked(x: Step, s: ControlState, bit: int)
    ensures
        marks(x.leds, fire_from(x, s, bit).leds),
    decreases BUTTON_BITS - bit,
{
    if bit < BUTTON_BITS {
        if s.held(bit) != x.st.prev.held(bit) {
            lemma_fire_marked(fire(x, bit, s.held(bit)), s, bit + 1);
        } else {
            lemma_fire_marked(x, s, bit + 1);
        }
    }
}

proof fn lemma_segments_marked(
    leds: Lamps,
    l: Layout,
    reversed: bool,
    value: u8,
    on: int,
    n: int,
)
    ensures
        marks(leds, light_segments(leds, l, reversed, value, on, n)),
    decreases n,
{
    if n > 0 {
        lemma_segments_marked(leds, l, reversed, value, on, n - 1);
    }
}

proof fn lemma_strip_marked(leds: Lamps, cfg: Config, l: Layout, raw: u16)
    ensures
        marks(leds, light_strip_of(leds, cfg, l, raw)),
{
    lemma_segments_marked(
        leds,
        l,
        l.strip_led_reversed != cfg.touchstrip.led_reversed,
        cfg.touchstrip.led_value,
        segments(l, raw),
        l.strip_leds as int,
    );
}

/// A report on the controls that changes a slot marks the LEDs for writing out: if it leaves them
/// unmarked it left them alone, and what was marked stays so.
pub proof fn law_controls_are_marked(x: Step, s: ControlState)
    requires
        x.st.knobs.len() == KNOBS,
    ensures
        marks(x.leds, controls(x, s).leds),
{
    if x.st.have_prev {
        let a = fire_from(x, s, 0);
        let b = turn_from(a, s, 0);
        let c = turn_encoder(b, s);
        lemma_fire_marked(x, s, 0);
        lemma_fire_from(x, s, 0);
        lemma_turn_from(a, s, 0);
        lemma_turn_encoder(b, s);
        let l = c.st.profile.layout;
        lemma_strip_marked(c.leds, c.st.cfg, l, s.analog@[l.strip_field()]);
    }
}

proof fn lemma_strikes_marked(x: Step, hits: Seq<PadHit>, n: int)
    ensures
        marks(x.leds, strikes(x, hits, n).leds),
    decreases n,
{
    if n > 0 {
        lemma_strikes_marked(x, hits, n - 1);
    }
}

/// The same of pad events; and pressure on a pad costs nothing.
pub proof fn law_pads_are_marked(x: Step, hits: Seq<PadHit>, h: PadHit)
    ensures
        marks(x.leds, pads(x, hits).leds),
        h.event is Aftertouch ==> strike(x, h).leds == x.leds,
{
    lemma_strikes_marked(x, hits, hits.len() as int);
}

proof fn lemma_host_marked(st: EngineState, leds: Lamps, ev: HostEvent, n: int)
    ensures
        marks(leds, host_buttons(leds, st.cfg.leds, st.buttons, ev, n)),
    decreases n,
{
    if n > 0 {
        lemma_host_marked(st, leds, ev, n - 1);
    }
}

/// The same of a message from the host.
pub proof fn law_host_messages_are_marked(x: Step, m: Msg)
    ensures
        marks(x.leds, host(x, m).leds),
{
    if let Some(ev) = host_event_of(m) {
        lemma_host_marked(x.st, x.leds, ev, x.st.buttons.len() as int);
    }
}

proof fn lemma_idle_pads_marked(leds: Lamps, cfg: Config, l: Layout, n: int)
    ensures
        marks(leds, idle_pads(leds, cfg, l, n)),
    decreases n,
{
    if n > 0 {
        lemma_idle_pads_marked(leds, cfg, l, n - 1);
    }
}

proof fn lemma_idle_buttons_marked(leds: Lamps, cfg: LedCfg, v: Seq<CompiledButton>, n: int)
    ensures
        marks(leds, idle_buttons(leds, cfg, v, n)),
    decreases n,
{
    if n > 0 {
        lemma_idle_buttons_marked(leds, cfg, v, n - 1);
    }
}

/// The same of painting the idle picture.
pub proof fn law_idle_painting_is_marked(st: EngineState, leds: Lamps)
    ensures
        marks(leds, idle_picture(st, leds)),
{
    let l = st.profile.layout;
    let a = idle_pads(leds, st.cfg, l, PADS as int);
    let b = light_strip_of(a, st.cfg, l, 0);
    lemma_idle_pads_marked(leds, st.cfg, l, PADS as int);
    lemma_strip_marked(a, st.cfg, l, 0);
    lemma_idle_buttons_marked(b, st.cfg.leds, st.buttons, st.buttons.len() as int);
}

// What the host sends.

/// Nothing that the host sends is sent on, and where LEDs are off it lights nothing.
pub proof fn law_host_messages_are_not_echoed(x: Step, m: Msg)
    ensures
        host(x, m).out == x.out,
        !x.st.cfg.leds.enabled ==> host(x, m).leds == x.leds,
        host(x, m).st.pads == x.st.pads,
        host(x, m).st.toggle == x.st.toggle,
{
}

/// Whether a message from the host is about a button: it mirrors the host, and the message is on
/// the address that it sends to.
pub open spec fn reaches(st: EngineState, ev: HostEvent, i: int) -> bool {
    let b = st.buttons[i];
    0 <= i < st.buttons.len() && b.led >= 0 && b.led_mode is Midi && addresses(ev, b.action)
}

/// The pad that a note from the host is about: the first with that note, if the note is on the
/// pads' channel.
pub open spec fn reached_pad(st: EngineState, ev: HostEvent) -> Option<int> {
    let notes = st.cfg.pads.notes@;
    let pad = first_note(notes, ev.num, 0);
    if ev.is_note && ev.ch == st.cfg.pads.channel - 1 && pad < notes.len() {
        Some(pad)
    } else {
        None
    }
}

proof fn lemma_first_note(notes: Seq<u8>, num: u8, i: int)
    ensures
        first_note(notes, num, i) >= i,
    decreases notes.len() - i,
{
    if i < notes.len() && notes[i] != num {
        lemma_first_note(notes, num, i + 1);
    }
}

proof fn lemma_host_buttons(st: EngineState, leds: Lamps, ev: HostEvent, n: int, slot: int)
    requires
        leds.bytes.len() == LED_COUNT,
        0 <= slot < LED_COUNT,
        0 <= n <= st.buttons.len(),
    ensures
        ({
            let after = host_buttons(leds, st.cfg.leds, st.buttons, ev, n);
            &&& after.bytes.len() == leds.bytes.len()
            &&& (forall|i: int|
                0 <= i < n && #[trigger] reaches(st, ev, i) ==> st.buttons[i].led != slot)
                ==> after.bytes[slot] == leds.bytes[slot]
            &&& forall|i: int|
                0 <= i < n && #[trigger] reaches(st, ev, i) && st.buttons[i].led == slot && (forall|
                    j: int,
                |
                    i < j < n && #[trigger] reaches(st, ev, j) ==> st.buttons[j].led != slot)
                    ==> after.bytes[slot] == button_byte(st.cfg.leds, st.buttons[i], ev.val > 0)
        }),
    decreases n,
{
    if n > 0 {
        lemma_host_buttons(st, leds, ev, n - 1, slot);
        let rest = host_buttons(leds, st.cfg.leds, st.buttons, ev, n - 1);
        let after = host_buttons(leds, st.cfg.leds, st.buttons, ev, n);
        assert(reaches(st, ev, n - 1) || after == rest);
        assert forall|i: int|
            0 <= i < n && #[trigger] reaches(st, ev, i) && st.buttons[i].led == slot && (forall|
                j: int,
            |
                i < j < n && #[trigger] reaches(st, ev, j) ==> st.buttons[j].led != slot)
            implies after.bytes[slot] == button_byte(st.cfg.leds, st.buttons[i], ev.val > 0) by {
            if i < n - 1 {
                assert(after.bytes[slot] == rest.bytes[slot]);
            }
        }
    }
}

/// A message from the host changes only the slots that it is about. Where LEDs are off, or for a
/// message that is neither a note nor a control change, none; else those of the buttons that mirror
/// the host on that address, each of which shows whether the value is above 0, and that of the
/// first pad with the note.
pub proof fn law_the_host_lights_what_it_addresses(x: Step, m: Msg, slot: int)
    requires
        x.leds.bytes.len() == LED_COUNT,
        0 <= slot < LED_COUNT,
    ensures
        ({
            let after = host(x, m).leds;
            let base = x.st.profile.layout.pad_led_base;
            match host_event_of(m) {
                Some(ev) if x.st.cfg.leds.enabled => {
                    let is_pad = reached_pad(x.st, ev) matches Some(pad) && base + pad == slot;
                    &&& after.bytes.len() == LED_COUNT
                    &&& is_pad ==> after.bytes[slot] == if ev.val > 0 {
                        colour_byte(x.st.cfg.pads.active_colour, Level::Bright)
                    } else {
                        idle_byte(x.st.cfg)
                    }
                    &&& !is_pad && (forall|i: int|
                        0 <= i < x.st.buttons.len() && #[trigger] reaches(x.st, ev, i)
                            ==> x.st.buttons[i].led != slot) ==> after.bytes[slot]
                        == x.leds.bytes[slot]
                    &&& forall|i: int|
                        !is_pad && 0 <= i < x.st.buttons.len() && #[trigger] reaches(x.st, ev, i)
                            && x.st.buttons[i].led == slot && (forall|j: int|
                            i < j < x.st.buttons.len() && #[trigger] reaches(x.st, ev, j)
                                ==> x.st.buttons[j].led != slot) ==> after.bytes[slot] == button_byte(
                            x.st.cfg.leds,
                            x.st.buttons[i],
                            ev.val > 0,
                        )
                },
                _ => after == x.leds,
            }
        }),
{
    if let Some(ev) = host_event_of(m) {
        lemma_host_buttons(x.st, x.leds, ev, x.st.buttons.len() as int, slot);
        assert(host(x, m).leds == host_leds(x.st, x.leds, ev));
    }
}

/// On a valid profile the slots that a message from the host is about are each lit by one thing.
/// The slot of every button that mirrors the host on that address shows whether the value is above
/// 0, and so does that of the first pad with the note. Every other slot is as it was, and so are
/// all where LEDs are off and for any other message. A note off is a note on with no velocity.
pub proof fn law_the_host_lights_each_slot_for_one(x: Step, m: Msg, slot: int)
    requires
        x.st.wf(),
        x.st.cfg.buttons.wf(),
        x.st.profile.valid(),
        x.st.profile.report.slots() <= i32::MAX,
        x.st.cfg.pads.notes@.len() <= x.st.profile.layout.pads,
        x.leds.bytes.len() == LED_COUNT,
        0 <= slot < LED_COUNT,
    ensures
        ({
            let after = host(x, m).leds;
            let base = x.st.profile.layout.pad_led_base;
            match host_event_of(m) {
                Some(ev) if x.st.cfg.leds.enabled => {
                    let is_pad = reached_pad(x.st, ev) matches Some(pad) && base + pad == slot;
                    let is_button = exists|i: int| #[trigger]
                        reaches(x.st, ev, i) && x.st.buttons[i].led == slot;
                    &&& after.bytes.len() == LED_COUNT
                    &&& forall|i: int| #[trigger]
                        reaches(x.st, ev, i) && x.st.buttons[i].led == slot ==> after.bytes[slot]
                            == button_byte(x.st.cfg.leds, x.st.buttons[i], ev.val > 0)
                    &&& is_pad ==> after.bytes[slot] == if ev.val > 0 {
                        colour_byte(x.st.cfg.pads.active_colour, Level::Bright)
                    } else {
                        idle_byte(x.st.cfg)
                    }
                    &&& !is_button && !is_pad ==> after.bytes[slot] == x.leds.bytes[slot]
                },
                _ => after == x.leds,
            }
        }),
        m matches Msg::NoteOff { ch, note, .. } ==> host(x, m).leds == host(
            x,
            Msg::NoteOn { ch, note, vel: 0 },
        ).leds,
{
    law_the_host_lights_what_it_addresses(x, m, slot);
    let cfg = x.st.cfg;
    let profile = x.st.profile;
    if let Some(ev) = host_event_of(m) {
        if let Some(pad) = reached_pad(x.st, ev) {
            lemma_first_note(cfg.pads.notes@, ev.num, 0);
        }
        assert forall|i: int| #[trigger]
            reaches(x.st, ev, i) && x.st.buttons[i].led == slot implies {
            &&& !profile.layout.in_block(slot as usize)
            &&& forall|j: int|
                i < j < x.st.buttons.len() && #[trigger] reaches(x.st, ev, j)
                    ==> x.st.buttons[j].led != slot
        } by {
            cfg.law_lit_buttons_are_off_the_blocks(profile, i);
            assert forall|j: int|
                i < j < x.st.buttons.len() && #[trigger] reaches(
                    x.st,
                    ev,
                    j,
                ) implies x.st.buttons[j].led != slot by {
                cfg.law_lit_buttons_have_slots_of_their_own(profile, i, j);
            }
        }
    }
}

// Ranges.

/// The channel is one of sixteen and every value is one of 128. Controller numbers are as the
/// config gives them.
pub open spec fn well_valued(m: Msg) -> bool {
    match m {
        Msg::NoteOn { ch, note, vel } => ch < 16 && note < 128 && 1 <= vel < 128,
        Msg::NoteOff { ch, note, vel } => ch < 16 && note < 128 && vel == 0,
        Msg::Cc { ch, cc, val } => ch < 16 && val < 128,
        Msg::PolyAftertouch { ch, note, val } => ch < 16 && note < 128 && val < 128,
        Msg::ChannelAftertouch { ch, val } => ch < 16 && val < 128,
        Msg::Program { ch, num } => ch < 16 && num < 128,
        Msg::PitchBend { .. } => false,
        _ => true,
    }
}

pub open spec fn all_well_valued(out: Seq<Msg>) -> bool {
    forall|i: int| 0 <= i < out.len() ==> #[trigger] well_valued(out[i])
}

/// Pads whose notes and pressures are in range.
pub open spec fn pads_in_range(pads: Seq<PadState>) -> bool {
    &&& pads.len() == PADS
    &&& forall|i: int| 0 <= i < PADS ==> (#[trigger] pads[i]).pressure < 128
    &&& forall|i: int|
        0 <= i < PADS && (#[trigger] pads[i]).sounding is Some ==> pads[i].sounding->0 < 128
}

proof fn lemma_notes_below(notes: Seq<u8>, i: int, k: int)
    requires
        crate::config::first_bad_note(notes, i) is None,
        0 <= i <= k < notes.len(),
    ensures
        notes[k] < 128,
    decreases notes.len() - i,
{
    if i < k {
        lemma_notes_below(notes, i + 1, k);
    }
}

proof fn lemma_peak_in_range(pads: Seq<PadState>, n: int)
    requires
        pads_in_range(pads),
        n <= PADS,
    ensures
        peak(pads, n) < 128,
    decreases n,
{
    if n > 0 {
        lemma_peak_in_range(pads, n - 1);
    }
}

proof fn lemma_pressure_in_range(p: crate::config::PadCfg, raw: u16)
    ensures
        p.pressure_of(raw) <= 127,
{
    if raw > p.aftertouch_floor {
        let s = p.span();
        let b = p.aftertouch_curve.bend();
        let r = crate::config::min_int(raw - p.aftertouch_floor, s as int) as nat;
        crate::single::law_shaped_grows(r, s, s, b);
        crate::single::law_full_scale(s, b);
    }
}

proof fn lemma_strikes_in_range(x: Step, hits: Seq<PadHit>, n: int)
    requires
        x.st.cfg.valid(),
        pads_in_range(x.st.pads),
        all_well_valued(x.out),
        0 <= n <= hits.len(),
    ensures
        pads_in_range(strikes(x, hits, n).st.pads),
        all_well_valued(strikes(x, hits, n).out),
        strikes(x, hits, n).st == (EngineState { pads: strikes(x, hits, n).st.pads, ..x.st }),
    decreases n,
{
    if n > 0 {
        lemma_strikes_in_range(x, hits, n - 1);
        let y = strikes(x, hits, n - 1);
        let h = hits[n - 1];
        let z = strike(y, h);
        let p = x.st.cfg.pads;
        if h.pad < PADS {
            let was = y.st.pads[h.pad as int];
            lemma_notes_below(p.notes@, 0, h.pad as int);
            lemma_pressure_in_range(p, h.value);
            assert(byte_at(p.notes@, h.pad as int) < 128);
            assert forall|i: int| 0 <= i < z.out.len() implies #[trigger] well_valued(z.out[i]) by {
                if i < y.out.len() {
                    assert(well_valued(y.out[i]));
                }
            }
        }
    }
}

/// Whatever the pads do, a valid config sends only notes of 0..127 with velocities of 1..127 and
/// pressures of 0..127, on channels that exist.
pub proof fn law_pad_messages_are_in_range(x: Step, hits: Seq<PadHit>)
    requires
        x.st.cfg.valid(),
        pads_in_range(x.st.pads),
        all_well_valued(x.out),
    ensures
        pads_in_range(pads(x, hits).st.pads),
        all_well_valued(pads(x, hits).out),
{
    let n = hits.len() as int;
    lemma_strikes_in_range(x, hits, n);
    let y = strikes(x, hits, n);
    let z = pads(x, hits);
    lemma_peak_in_range(y.st.pads, PADS as int);
    assert forall|i: int| 0 <= i < z.out.len() implies #[trigger] well_valued(z.out[i]) by {
        if i < y.out.len() {
            assert(well_valued(y.out[i]));
        }
    }
}

/// Buttons whose actions send messages in range, as compiled ones do.
pub open spec fn actions_in_range(st: EngineState) -> bool {
    forall|i: int, on: bool|
        0 <= i < st.buttons.len() ==> match #[trigger] st.buttons[i].action.sends(on) {
            Some(m) => well_valued(m),
            None => true,
        }
}

/// The buttons that a config compiles to send messages in range.
pub proof fn law_compiled_actions_are_in_range(cfg: Config, profile: Profile, i: int, on: bool)
    requires
        0 <= i < cfg.compiled_all(profile).len(),
    ensures
        match cfg.compiled_all(profile)[i].action.sends(on) {
            Some(m) => well_valued(m),
            None => true,
        },
{
    let n = cfg.bindings().len() as int;
    cfg.law_compiled_buttons_are_bound(profile, n, i);
    let j = choose|j: int|
        0 <= j < n && #[trigger] cfg.bound_control(profile, j) is Some && cfg.compiled_to(
            profile,
            n,
        )[i] == compiled(
            cfg.bindings()[j].0,
            cfg.bindings()[j].1,
            cfg.bound_control(profile, j)->0,
        );
    Action::law_parsed_actions_are_midi(cfg.bindings()[j].1.full().send@, on);
}

proof fn lemma_fire_in_range(x: Step, s: ControlState, bit: int)
    requires
        actions_in_range(x.st),
        all_well_valued(x.out),
    ensures
        all_well_valued(fire_from(x, s, bit).out),
    decreases BUTTON_BITS - bit,
{
    if bit < BUTTON_BITS {
        if s.held(bit) != x.st.prev.held(bit) {
            let down = s.held(bit);
            let y = fire(x, bit, down);
            if let Some(i) = button_on(x.st.buttons, bit) {
                lemma_last_on_bit_bound(
                    x.st.buttons,
                    bit,
                    crate::config::min_int(x.st.buttons.len() as int, 255),
                );
                let a = x.st.buttons[i].action;
                assert forall|k: int| 0 <= k < y.out.len() implies #[trigger] well_valued(
                    y.out[k],
                ) by {
                    if k < x.out.len() {
                        assert(well_valued(x.out[k]));
                    } else {
                        assert(a.sends(true) == Some(y.out[k]) || a.sends(false) == Some(y.out[k]));
                    }
                }
            }
            lemma_fire_in_range(y, s, bit + 1);
        } else {
            lemma_fire_in_range(x, s, bit + 1);
        }
    }
}

proof fn lemma_last_on_bit_bound(v: Seq<crate::config::CompiledButton>, bit: int, n: int)
    requires
        n <= v.len(),
    ensures
        last_on_bit(v, bit, n) is Some ==> 0 <= last_on_bit(v, bit, n)->0 < n,
    decreases n,
{
    if n > 0 && v[n - 1].bit != bit {
        lemma_last_on_bit_bound(v, bit, n - 1);
    }
}

/// Knobs within their travel.
pub open spec fn knobs_in_range(st: EngineState) -> bool {
    &&& st.knobs.len() == KNOBS
    &&& forall|i: int| 0 <= i < KNOBS ==> (#[trigger] st.knobs[i]).accum >= 0
}

proof fn lemma_knob_in_range(cfg: Config, cc: u8, st: KnobState, now: u16)
    requires
        cfg.valid(),
        now < 1000,
        st.accum >= 0,
    ensures
        all_well_valued(knob_move(cfg.knobs, cc, st, now).out),
        knob_move(cfg.knobs, cc, st, now).st.accum >= 0,
{
    let k = cfg.knobs;
    let delta = short_way(st.raw as int, now as int, 1000);
    let m = knob_move(k, cc, st, now);
    let travel = k.travel as int;
    crate::hid::law_short_way(st.raw as int, now as int, 1000);
    if !(-k.deadband < delta < k.deadband) {
        match k.mode {
            crate::config::KnobMode::Relative => {},
            crate::config::KnobMode::Accumulate => {
                assert(0 <= (k.initial * travel) / 127) by (nonlinear_arith)
                    requires
                        k.initial >= 0,
                        travel >= 0,
                ;
                let from = if st.seen {
                    st.accum as int
                } else {
                    (k.initial * travel) / 127
                };
                let accum = crate::config::clamp_int(from + delta, 0, travel);
                lemma_value_order(0, accum, travel, 127);
                lemma_value_order(0, accum, travel, 16383);
            },
            crate::config::KnobMode::Absolute => {},
        }
    }
}

proof fn lemma_turn_in_range(x: Step, s: ControlState, i: int)
    requires
        x.st.cfg.valid(),
        knobs_in_range(x.st),
        all_well_valued(x.out),
        0 <= i,
    ensures
        knobs_in_range(turn_from(x, s, i).st),
        all_well_valued(turn_from(x, s, i).out),
    decreases KNOBS - i,
{
    if i < KNOBS {
        let y = turn(x, s, i);
        let k = x.st.cfg.knobs;
        let cc = byte_at(k.ccs@, i);
        let now = knob_position(s.knobs@[i]);
        lemma_knob_in_range(x.st.cfg, cc, x.st.knobs[i], now);
        let m = knob_move(k, cc, x.st.knobs[i], now);
        assert forall|j: int| 0 <= j < y.out.len() implies #[trigger] well_valued(y.out[j]) by {
            if j < x.out.len() {
                assert(well_valued(x.out[j]));
            } else {
                assert(well_valued(m.out[j - x.out.len()]));
            }
        }
        lemma_turn_in_range(y, s, i + 1);
    }
}

proof fn lemma_pedals_in_range(st: EngineState, s: ControlState, n: int)
    requires
        st.cfg.valid(),
    ensures
        all_well_valued(pedals(st, s, n)),
    decreases n,
{
    if n > 0 {
        lemma_pedals_in_range(st, s, n - 1);
        let rest = pedals(st, s, n - 1);
        let all = pedals(st, s, n);
        let at = st.profile.layout.pedal_analog_base + (n - 1);
        if all != rest {
            lemma_scaled_in_range(s.analog@[at], crate::hid::PAD_MAX as int);
        }
        assert forall|j: int| 0 <= j < all.len() implies #[trigger] well_valued(all[j]) by {
            if j < rest.len() {
                assert(well_valued(rest[j]));
            }
        }
    }
}

proof fn lemma_scaled_in_range(v: u16, full: int)
    requires
        full > 0,
    ensures
        scaled(v, full) < 128,
{
    let r = crate::config::min_int(v as int, full);
    lemma_value_order(0, r, full, 127);
}

/// Whatever is turned, pressed or touched, a valid config sends only values of 0..127 on channels
/// that exist.
pub proof fn law_control_messages_are_in_range(x: Step, s: ControlState)
    requires
        x.st.cfg.valid(),
        actions_in_range(x.st),
        knobs_in_range(x.st),
        all_well_valued(x.out),
    ensures
        all_well_valued(controls(x, s).out),
        knobs_in_range(controls(x, s).st),
{
    if x.st.have_prev {
        let a = fire_from(x, s, 0);
        let b = turn_from(a, s, 0);
        let c = turn_encoder(b, s);
        let d = slide(c, s);
        let y = analog(c, s);
        lemma_fire_from(x, s, 0);
        lemma_fire_in_range(x, s, 0);
        lemma_turn_from(a, s, 0);
        lemma_turn_in_range(a, s, 0);
        lemma_turn_encoder(b, s);
        assert forall|j: int| 0 <= j < c.out.len() implies #[trigger] well_valued(c.out[j]) by {
            if j < b.out.len() {
                assert(well_valued(b.out[j]));
            }
        }
        let l = c.st.profile.layout;
        lemma_scaled_in_range(
            s.analog@[l.strip_field()],
            crate::config::max_int(l.strip_max as int, 1),
        );
        assert forall|j: int| 0 <= j < d.out.len() implies #[trigger] well_valued(d.out[j]) by {
            if j < c.out.len() {
                assert(well_valued(c.out[j]));
            }
        }
        lemma_pedals_in_range(d.st, s, d.st.cfg.pedal.ccs@.len() as int);
        let p = pedals(d.st, s, d.st.cfg.pedal.ccs@.len() as int);
        assert forall|j: int| 0 <= j < y.out.len() implies #[trigger] well_valued(y.out[j]) by {
            if j < d.out.len() {
                assert(well_valued(d.out[j]));
            } else {
                assert(well_valued(p[j - d.out.len()]));
            }
        }
    }
}

} // verus!
