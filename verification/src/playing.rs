//! What a player hears and sees.
//!
//! Each law says of a report what is sent and lit for it, in terms of what was pressed, turned or
//! struck and of the settings that it falls under.
use crate::behaviour::{
    knob_settled, law_the_host_lights_what_it_addresses, lemma_turn_none, settled,
};
use crate::config::{
    Action, CompiledButton, Config, Curve, KnobCfg, KnobMode, LedCfg, PadCfg, RelFormat, Transport,
};
use crate::engine::{
    analog, button_on, close_note, controls, fire, fire_from, fresh, host, idle_picture, last_on_bit, light_segments, pads, peak,
    pedals, press_channel, reloaded, scaled, segment_slot, segments, slide, strike, strikes, turn, turn_encoder,
    turn_from, EngineState, KnobState, PadState, Step, MAX_BUTTONS,
};
use crate::hid::{
    law_short_way, short_way, ControlState, PadEvent, PadHit, ANALOGS, BUTTON_BITS, KNOBS, PADS,
};
use crate::leds::{Level, LED_COUNT};
use crate::midi::Msg;
use crate::profile::{Layout, Profile};
use crate::single::{
    law_full_scale, law_root_is_a_root, law_shaped_grows, law_square_is_quadratic,
    law_straight_is_proportional,
};
use vstd::prelude::*;

verus! {

/// An engine's state with all of its parts.
pub open spec fn sized(st: EngineState) -> bool {
    &&& st.toggle.len() == BUTTON_BITS
    &&& st.knobs.len() == KNOBS
    &&& st.pads.len() == PADS
    &&& st.outputs.knobs.len() == KNOBS
}

// How hard a pad is hit, and how hard it is leaned on.

/// `value` is what the reading `raw` out of `full` comes to on a curve: its part of 127 to the
/// nearest, 127 times the root of its part, or 127 times the square of it, each of these within one.
pub open spec fn on_curve(curve: Curve, raw: int, full: int, value: int) -> bool {
    match curve {
        Curve::Linear | Curve::Fixed => -(full + full / 0x4000) <= 2 * (value * full - 127 * raw)
            <= full + full / 0x4000,
        Curve::Soft => {
            &&& value >= 1 ==> full * ((value - 1) * (value - 1)) <= 16129 * raw
            &&& 16129 * raw <= full * ((value + 1) * (value + 1))
        },
        Curve::Hard => (value - 1) * (full * full) <= 127 * (raw * raw) <= (value + 1) * (full * full),
    }
}

/// `vel` is how loud a hit of that reading is: as the curve has it, from 1 to 127, and 127 from full
/// scale on. A fixed velocity is the same for every hit.
pub open spec fn is_velocity(p: PadCfg, raw: u16, vel: u8) -> bool {
    &&& 1 <= vel <= 127
    &&& if p.curve is Fixed {
        if p.fixed_velocity < 1 {
            vel == 1
        } else if p.fixed_velocity > 127 {
            vel == 127
        } else {
            vel == p.fixed_velocity
        }
    } else if p.velocity_max == 0 {
        true
    } else if raw >= p.velocity_max {
        vel == 127
    } else {
        ||| on_curve(p.curve, raw as int, p.velocity_max as int, vel as int)
        ||| vel == 1 && on_curve(p.curve, raw as int, p.velocity_max as int, 0)
    }
}

/// `val` is the aftertouch of a pressure reading: none up to the floor, 127 from full scale on, and
/// between them as the curve has it.
pub open spec fn is_pressure(p: PadCfg, raw: u16, val: u8) -> bool {
    &&& val <= 127
    &&& if raw <= p.aftertouch_floor {
        val == 0
    } else if p.aftertouch_max <= p.aftertouch_floor {
        true
    } else if raw >= p.aftertouch_max {
        val == 127
    } else {
        on_curve(
            p.aftertouch_curve,
            raw - p.aftertouch_floor,
            p.aftertouch_max - p.aftertouch_floor,
            val as int,
        )
    }
}

proof fn lemma_on_curve(curve: Curve, raw: nat, full: nat)
    requires
        raw <= full <= 0xffff,
        full > 0,
    ensures
        on_curve(
            curve,
            raw as int,
            full as int,
            crate::single::shaped(raw, full, curve.bend()) as int,
        ),
        crate::single::shaped(raw, full, curve.bend()) <= 127,
{
    law_straight_is_proportional(raw, full);
    law_square_is_quadratic(raw, full);
    law_root_is_a_root(raw, full);
    law_full_scale(full, curve.bend());
    law_shaped_grows(raw, full, full, curve.bend());
}

/// A velocity follows how hard the pad was hit, and harder is never quieter.
pub proof fn law_velocity_follows_the_hit(p: PadCfg, a: u16, b: u16)
    ensures
        0 <= p.velocity_of(a) <= 127,
        is_velocity(p, a, p.velocity_of(a) as u8),
        a <= b ==> p.velocity_of(a) <= p.velocity_of(b),
{
    if !(p.curve is Fixed) {
        let full: nat = if p.velocity_max < 1 {
            1
        } else {
            p.velocity_max as nat
        };
        let raw: nat = if a < full {
            a as nat
        } else {
            full
        };
        lemma_on_curve(p.curve, raw, full);
        law_full_scale(full, p.curve.bend());
    }
    if a <= b {
        p.law_velocity_is_monotonic(a, b);
    }
}

/// Aftertouch follows how hard the pad is leaned on, and harder is never less.
pub proof fn law_pressure_follows_the_finger(p: PadCfg, a: u16, b: u16)
    ensures
        p.pressure_of(a) <= 127,
        is_pressure(p, a, p.pressure_of(a) as u8),
        a <= b ==> p.pressure_of(a) <= p.pressure_of(b),
{
    if a > p.aftertouch_floor {
        let full: nat = if p.aftertouch_max > p.aftertouch_floor {
            (p.aftertouch_max - p.aftertouch_floor) as nat
        } else {
            1
        };
        let raw: nat = if a - p.aftertouch_floor < full {
            (a - p.aftertouch_floor) as nat
        } else {
            full
        };
        lemma_on_curve(p.aftertouch_curve, raw, full);
        law_full_scale(full, p.aftertouch_curve.bend());
    }
    if a <= b {
        p.law_pressure_is_monotonic(a, b);
    }
}

// Pads.

/// The slots after a change of one of them, which now holds `byte`.
pub open spec fn only_slot(before: Seq<u8>, after: Seq<u8>, slot: int, byte: u8) -> bool {
    &&& after.len() == before.len()
    &&& forall|k: int|
        0 <= k < after.len() ==> #[trigger] after[k] == if k == slot {
            byte
        } else {
            before[k]
        }
}

/// The LED byte of a palette entry at a brightness of 0 to 3, where 0 is dark whatever the colour.
pub open spec fn is_colour(byte: u8, palette: u8, level: int) -> bool {
    if level == 0 {
        byte == 0
    } else {
        byte / 4 == palette % 64 && byte % 4 == level
    }
}

/// What a pad's light shows: its active colour at its brightest, or its idle colour at its idle
/// level, which is 3 at the most.
pub open spec fn pad_shows(p: PadCfg, active: bool, byte: u8) -> bool {
    if active {
        is_colour(byte, p.active_colour, 3)
    } else if p.idle_level > 3 {
        is_colour(byte, p.idle_colour, 3)
    } else {
        is_colour(byte, p.idle_colour, p.idle_level as int)
    }
}

/// A pad's light and no other was set, where there are lights.
pub open spec fn pad_lit(st: EngineState, before: Seq<u8>, after: Seq<u8>, pad: int, active: bool) -> bool {
    if st.cfg.leds.enabled {
        exists|byte: u8| #[trigger]
            pad_shows(st.cfg.pads, active, byte) && only_slot(
                before,
                after,
                st.profile.layout.pad_led_base + pad,
                byte,
            )
    } else {
        after == before
    }
}

/// What a pad that is struck anew sends first: the note off of the note that it still sounds.
pub open spec fn closes(p: PadCfg, was: PadState) -> Seq<Msg> {
    match was.sounding {
        Some(note) => seq![Msg::NoteOff { ch: (p.channel - 1) as u8, note, vel: 0 }],
        None => Seq::empty(),
    }
}

/// `val` is the highest pressure of all pads.
pub open spec fn is_peak(pads: Seq<PadState>, val: u8) -> bool {
    &&& forall|i: int| 0 <= i < PADS ==> (#[trigger] pads[i]).pressure <= val
    &&& val == 0 || exists|i: int| 0 <= i < PADS && (#[trigger] pads[i]).pressure == val
}

/// What follows the messages of a report of pad events: the channel pressure where it is sent and
/// has changed, and nothing else.
pub open spec fn channel_pressure(st: EngineState, after: EngineState) -> Seq<Msg> {
    if st.cfg.pads.aftertouch is Channel && after.chan_pressure != st.chan_pressure {
        seq![
            Msg::ChannelAftertouch {
                ch: (st.cfg.pads.channel - 1) as u8,
                val: after.chan_pressure,
            },
        ]
    } else {
        Seq::empty()
    }
}

proof fn lemma_is_colour(palette: u8, level: Level)
    ensures
        is_colour(crate::leds::colour_byte(palette, level), palette, level.step() as int),
{
    let n = (palette * 4) % 256;
    assert(n == 4 * (palette % 64));
    assert((n + level.step()) / 4 == palette % 64);
}

proof fn lemma_pad_lit(st: EngineState, leds: crate::leds::Lamps, pad: int, active: bool)
    requires
        leds.bytes.len() == LED_COUNT,
    ensures
        pad_lit(
            st,
            leds.bytes,
            crate::engine::light_pad_of(leds, st.cfg, st.profile.layout, pad, active).bytes,
            pad,
            active,
        ),
{
    if st.cfg.leds.enabled {
        let p = st.cfg.pads;
        let byte = if active {
            crate::leds::colour_byte(p.active_colour, Level::Bright)
        } else {
            crate::engine::idle_byte(st.cfg)
        };
        assert(pad_shows(p, active, byte)) by {
            lemma_is_colour(p.active_colour, Level::Bright);
            lemma_is_colour(p.idle_colour, crate::engine::level_of(p.idle_level));
        }
        assert(only_slot(
            leds.bytes,
            crate::engine::light_pad_of(leds, st.cfg, st.profile.layout, pad, active).bytes,
            st.profile.layout.pad_led_base + pad,
            byte,
        ));
    }
}

proof fn lemma_peak(pads: Seq<PadState>, n: int)
    requires
        0 <= n,
    ensures
        forall|i: int| 0 <= i < n ==> (#[trigger] pads[i]).pressure <= peak(pads, n),
        peak(pads, n) == 0 || exists|i: int|
            0 <= i < n && (#[trigger] pads[i]).pressure == peak(pads, n),
    decreases n,
{
    if n > 0 {
        lemma_peak(pads, n - 1);
        assert(pads[n - 1].pressure <= peak(pads, n));
    }
}

proof fn lemma_one_hit(x: Step, h: PadHit)
    ensures
        strikes(x, seq![h], 1) == strike(x, h),
        pads(x, seq![h]) == press_channel(strike(x, h)),
        pads(x, seq![h]).st.pads == strike(x, h).st.pads,
        pads(x, seq![h]).leds == strike(x, h).leds,
        pads(x, seq![h]).out == strike(x, h).out + channel_pressure(x.st, pads(x, seq![h]).st),
{
    reveal_with_fuel(strikes, 2);
    assert(strikes(x, seq![h], 0) == x);
    let y = pads(x, seq![h]);
    assert(y.out =~= strike(x, h).out + channel_pressure(x.st, y.st));
}

/// A pad that is hit at least as hard as the threshold ends the note that it still sounds and
/// starts its own, as loud as it was hit, and its light comes on. Nothing else changes.
pub proof fn law_a_hit_sounds_as_hard_as_it_is(x: Step, h: PadHit)
    requires
        sized(x.st),
        x.leds.bytes.len() == LED_COUNT,
        x.st.cfg.pads.channel >= 1,
        x.st.cfg.pads.notes@.len() == PADS,
        h.event is NoteOn,
        h.pad < PADS,
        h.value >= x.st.cfg.pads.threshold,
    ensures
        ({
            let p = x.st.cfg.pads;
            let y = pads(x, seq![h]);
            let was = x.st.pads[h.pad as int];
            let before = x.out + closes(p, was);
            &&& exists|vel: u8| #[trigger]
                is_velocity(p, h.value, vel) && y.out == before.push(
                    Msg::NoteOn { ch: (p.channel - 1) as u8, note: p.notes@[h.pad as int], vel },
                ) + channel_pressure(x.st, y.st)
            &&& y.st.pads == x.st.pads.update(
                h.pad as int,
                PadState { sounding: Some(p.notes@[h.pad as int]), pressure: was.pressure },
            )
            &&& pad_lit(x.st, x.leds.bytes, y.leds.bytes, h.pad as int, true)
        }),
{
    let p = x.st.cfg.pads;
    let was = x.st.pads[h.pad as int];
    let y = pads(x, seq![h]);
    let before = x.out + closes(p, was);
    lemma_one_hit(x, h);
    law_velocity_follows_the_hit(p, h.value, h.value);
    lemma_pad_lit(x.st, x.leds, h.pad as int, true);
    let vel = p.velocity_of(h.value) as u8;
    assert(before =~= close_note(x.out, (p.channel - 1) as u8, was));
    assert(is_velocity(p, h.value, vel));
    assert(y.out == before.push(
        Msg::NoteOn { ch: (p.channel - 1) as u8, note: p.notes@[h.pad as int], vel },
    ) + channel_pressure(x.st, y.st));
}

/// Of two hits on the same pad, neither of them too soft, the harder one is never the quieter.
pub proof fn law_harder_hits_are_not_quieter(x: Step, a: PadHit, b: PadHit)
    requires
        a.event is NoteOn,
        b.event is NoteOn,
        a.pad == b.pad,
        a.pad < PADS,
        x.st.cfg.pads.threshold <= a.value <= b.value,
        !(x.st.cfg.pads.aftertouch is Channel),
    ensures
        pads(x, seq![a]).out.len() == pads(x, seq![b]).out.len() > x.out.len(),
        pads(x, seq![a]).out.last() is NoteOn,
        pads(x, seq![b]).out.last() is NoteOn,
        pads(x, seq![a]).out.last()->NoteOn_vel <= pads(x, seq![b]).out.last()->NoteOn_vel,
{
    lemma_one_hit(x, a);
    lemma_one_hit(x, b);
    law_velocity_follows_the_hit(x.st.cfg.pads, a.value, b.value);
    law_velocity_follows_the_hit(x.st.cfg.pads, b.value, b.value);
}

/// A pad that is hit too softly, or that there is none of, does nothing.
pub proof fn law_soft_hits_do_nothing(x: Step, h: PadHit)
    requires
        h.event is NoteOn && h.value < x.st.cfg.pads.threshold || h.pad >= PADS,
    ensures
        pads(x, seq![h]).st.pads == x.st.pads,
        pads(x, seq![h]).leds == x.leds,
        pads(x, seq![h]).out == x.out + channel_pressure(x.st, pads(x, seq![h]).st),
{
    lemma_one_hit(x, h);
}

/// A pad that is pressed rather than hit comes on, and starts its note where presses do and it does
/// not sound yet: as loud as it was pressed, and at the least as a reading of 1.
pub proof fn law_a_press_starts_a_note_where_it_may(x: Step, h: PadHit, reading: u16)
    requires
        sized(x.st),
        x.leds.bytes.len() == LED_COUNT,
        x.st.cfg.pads.channel >= 1,
        x.st.cfg.pads.notes@.len() == PADS,
        h.event is PressOn,
        h.pad < PADS,
        h.value == 0 ==> reading == 1,
        h.value > 0 ==> reading == h.value,
    ensures
        ({
            let p = x.st.cfg.pads;
            let y = pads(x, seq![h]);
            let was = x.st.pads[h.pad as int];
            &&& pad_lit(x.st, x.leds.bytes, y.leds.bytes, h.pad as int, true)
            &&& if p.press_sends_note && was.sounding is None {
                &&& exists|vel: u8| #[trigger]
                    is_velocity(p, reading, vel) && y.out == x.out.push(
                        Msg::NoteOn {
                            ch: (p.channel - 1) as u8,
                            note: p.notes@[h.pad as int],
                            vel,
                        },
                    ) + channel_pressure(x.st, y.st)
                &&& y.st.pads == x.st.pads.update(
                    h.pad as int,
                    PadState { sounding: Some(p.notes@[h.pad as int]), pressure: was.pressure },
                )
            } else {
                &&& y.out == x.out + channel_pressure(x.st, y.st)
                &&& y.st.pads == x.st.pads
            }
        }),
{
    let p = x.st.cfg.pads;
    let was = x.st.pads[h.pad as int];
    let y = pads(x, seq![h]);
    lemma_one_hit(x, h);
    law_velocity_follows_the_hit(p, reading, reading);
    lemma_pad_lit(x.st, x.leds, h.pad as int, true);
    if p.press_sends_note && was.sounding is None {
        let vel = p.velocity_of(reading) as u8;
        assert(is_velocity(p, reading, vel));
        assert(y.out == x.out.push(
            Msg::NoteOn { ch: (p.channel - 1) as u8, note: p.notes@[h.pad as int], vel },
        ) + channel_pressure(x.st, y.st));
    }
}

/// A pad that is let go, by either event, ends its note, takes back the pressure that it sent for
/// that note, and goes back to its idle light. Letting go of a silent pad sends nothing.
pub proof fn law_letting_go_ends_the_note(x: Step, h: PadHit)
    requires
        sized(x.st),
        x.leds.bytes.len() == LED_COUNT,
        x.st.cfg.pads.channel >= 1,
        x.st.cfg.pads.notes@.len() == PADS,
        h.event is NoteOff || h.event is PressOff,
        h.pad < PADS,
    ensures
        ({
            let p = x.st.cfg.pads;
            let y = pads(x, seq![h]);
            let was = x.st.pads[h.pad as int];
            let released: Seq<Msg> = if p.aftertouch is Poly && was.pressure > 0 {
                seq![
                    Msg::PolyAftertouch {
                        ch: (p.channel - 1) as u8,
                        note: p.notes@[h.pad as int],
                        val: 0,
                    },
                ]
            } else {
                Seq::empty()
            };
            &&& y.out == x.out + closes(p, was) + released + channel_pressure(x.st, y.st)
            &&& y.st.pads == x.st.pads.update(
                h.pad as int,
                PadState { sounding: None, pressure: 0 },
            )
            &&& pad_lit(x.st, x.leds.bytes, y.leds.bytes, h.pad as int, false)
        }),
{
    let p = x.st.cfg.pads;
    let was = x.st.pads[h.pad as int];
    let y = pads(x, seq![h]);
    lemma_one_hit(x, h);
    lemma_pad_lit(x.st, x.leds, h.pad as int, false);
    let released: Seq<Msg> = if p.aftertouch is Poly && was.pressure > 0 {
        seq![
            Msg::PolyAftertouch {
                ch: (p.channel - 1) as u8,
                note: p.notes@[h.pad as int],
                val: 0,
            },
        ]
    } else {
        Seq::empty()
    };
    assert(strike(x, h).out =~= x.out + closes(p, was) + released);
}

/// While a pad sounds, leaning on it moves its pressure along its curve. Polyphonic pressure is
/// sent for the pad's own note where it changed; a silent pad, or pressure that is switched off,
/// changes nothing.
pub proof fn law_pressure_is_sent_while_a_pad_sounds(x: Step, h: PadHit)
    requires
        sized(x.st),
        x.st.cfg.pads.channel >= 1,
        x.st.cfg.pads.notes@.len() == PADS,
        h.event is Aftertouch,
        h.pad < PADS,
    ensures
        ({
            let p = x.st.cfg.pads;
            let y = pads(x, seq![h]);
            let was = x.st.pads[h.pad as int];
            let now = y.st.pads[h.pad as int];
            &&& y.leds == x.leds
            &&& y.st.pads == x.st.pads.update(h.pad as int, now)
            &&& now.sounding == was.sounding
            &&& if p.aftertouch is Off || was.sounding is None {
                &&& now.pressure == was.pressure
                &&& y.out == x.out + channel_pressure(x.st, y.st)
            } else {
                &&& is_pressure(p, h.value, now.pressure)
                &&& y.out == if p.aftertouch is Poly && now.pressure != was.pressure {
                    x.out.push(
                        Msg::PolyAftertouch {
                            ch: (p.channel - 1) as u8,
                            note: p.notes@[h.pad as int],
                            val: now.pressure,
                        },
                    )
                } else {
                    x.out
                } + channel_pressure(x.st, y.st)
            }
        }),
{
    lemma_one_hit(x, h);
    law_pressure_follows_the_finger(x.st.cfg.pads, h.value, h.value);
    let y = pads(x, seq![h]);
    assert(y.st.pads =~= x.st.pads.update(h.pad as int, y.st.pads[h.pad as int]));
}

/// Channel pressure is that of the hardest-pressed pad after every report, and is sent at the end
/// of a report that changed it.
pub proof fn law_channel_pressure_is_the_highest(x: Step, hits: Seq<PadHit>)
    requires
        x.st.cfg.pads.channel >= 1,
        x.st.cfg.pads.aftertouch is Channel,
    ensures
        is_peak(pads(x, hits).st.pads, pads(x, hits).st.chan_pressure),
        pads(x, hits).st.chan_pressure != x.st.chan_pressure ==> {
            &&& pads(x, hits).out.len() > 0
            &&& pads(x, hits).out.last() == Msg::ChannelAftertouch {
                ch: (x.st.cfg.pads.channel - 1) as u8,
                val: pads(x, hits).st.chan_pressure,
            }
        },
{
    let y = strikes(x, hits, hits.len() as int);
    lemma_strikes_frame(x, hits, hits.len() as int);
    lemma_peak(y.st.pads, PADS as int);
}

proof fn lemma_strikes_frame(x: Step, hits: Seq<PadHit>, n: int)
    ensures
        strikes(x, hits, n).st == (EngineState { pads: strikes(x, hits, n).st.pads, ..x.st }),
    decreases n,
{
    if n > 0 {
        lemma_strikes_frame(x, hits, n - 1);
    }
}

proof fn lemma_strikes_without_pressure(x: Step, c: u8, out: Seq<Msg>, hits: Seq<PadHit>, n: int)
    ensures
        ({
            let y = strikes(x, hits, n);
            let z = strikes(
                Step { st: EngineState { chan_pressure: c, ..x.st }, out, ..x },
                hits,
                n,
            );
            &&& z.st == EngineState { chan_pressure: c, ..y.st }
            &&& z.leds == y.leds
        }),
    decreases n,
{
    if n > 0 {
        lemma_strikes_without_pressure(x, c, out, hits, n - 1);
    }
}

proof fn lemma_strikes_join(x: Step, a: Seq<PadHit>, b: Seq<PadHit>, n: int)
    requires
        0 <= n <= b.len(),
    ensures
        strikes(x, a + b, a.len() + n) == strikes(strikes(x, a, a.len() as int), b, n),
    decreases n,
{
    if n > 0 {
        lemma_strikes_join(x, a, b, n - 1);
        assert((a + b)[a.len() + n - 1] == b[n - 1]);
    } else {
        lemma_strikes_same(x, a + b, a, a.len() as int);
    }
}

proof fn lemma_strikes_same(x: Step, a: Seq<PadHit>, b: Seq<PadHit>, n: int)
    requires
        n <= a.len(),
        n <= b.len(),
        forall|i: int| 0 <= i < n ==> a[i] == b[i],
    ensures
        strikes(x, a, n) == strikes(x, b, n),
    decreases n,
{
    if n > 0 {
        lemma_strikes_same(x, a, b, n - 1);
    }
}

/// Events in one report do what they do in two, one after the other. Only channel pressure is sent
/// once for each report.
pub proof fn law_events_are_taken_in_order(x: Step, a: Seq<PadHit>, b: Seq<PadHit>)
    ensures
        pads(x, a + b).st == pads(pads(x, a), b).st,
        pads(x, a + b).leds == pads(pads(x, a), b).leds,
        !(x.st.cfg.pads.aftertouch is Channel) ==> pads(x, a + b).out == pads(pads(x, a), b).out,
        pads(x, Seq::empty()).leds == x.leds,
        pads(x, Seq::empty()).st.pads == x.st.pads,
        !(x.st.cfg.pads.aftertouch is Channel) ==> pads(x, Seq::empty()) == x,
{
    let mid = strikes(x, a, a.len() as int);
    let y = pads(x, a);
    lemma_strikes_join(x, a, b, b.len() as int);
    lemma_strikes_frame(x, a, a.len() as int);
    lemma_strikes_frame(mid, b, b.len() as int);
    lemma_strikes_frame(y, b, b.len() as int);
    lemma_strikes_without_pressure(mid, y.st.chan_pressure, y.out, b, b.len() as int);
}

// A report in which one thing changed.

/// No button went down or up.
pub open spec fn buttons_rest(st: EngineState, s: ControlState) -> bool {
    forall|b: int| 0 <= b < BUTTON_BITS ==> #[trigger] s.held(b) == st.prev.held(b)
}

/// Knob `i` is where it was.
pub open spec fn knob_rests(st: EngineState, s: ControlState, i: int) -> bool {
    s.knobs@[i] % 1000 == st.knobs[i].raw
}

/// No knob moved, and there is a deadband.
pub open spec fn knobs_rest(st: EngineState, s: ControlState) -> bool {
    &&& st.cfg.knobs.deadband > 0
    &&& forall|i: int| 0 <= i < KNOBS ==> #[trigger] knob_rests(st, s, i)
}

/// Neither the strip nor a pedal moved.
pub open spec fn analog_rests(st: EngineState, s: ControlState) -> bool {
    s.analog@ == st.prev.analog@
}

proof fn lemma_buttons_rest(x: Step, s: ControlState, bit: int)
    requires
        0 <= bit,
        forall|b: int| bit <= b < BUTTON_BITS ==> #[trigger] s.held(b) == x.st.prev.held(b),
    ensures
        fire_from(x, s, bit) == x,
    decreases BUTTON_BITS - bit,
{
    if bit < BUTTON_BITS {
        assert(s.held(bit) == x.st.prev.held(bit));
        lemma_buttons_rest(x, s, bit + 1);
    }
}

proof fn lemma_one_button(x: Step, s: ControlState, bit: int, from: int)
    requires
        0 <= from <= bit < BUTTON_BITS,
        s.held(bit) != x.st.prev.held(bit),
        forall|b: int|
            from <= b < BUTTON_BITS && b != bit ==> #[trigger] s.held(b) == x.st.prev.held(b),
    ensures
        fire_from(x, s, from) == fire(x, bit, s.held(bit)),
    decreases BUTTON_BITS - from,
{
    if from == bit {
        let y = fire(x, bit, s.held(bit));
        assert(y.st.prev == x.st.prev);
        lemma_buttons_rest(y, s, bit + 1);
    } else {
        assert(s.held(from) == x.st.prev.held(from));
        lemma_one_button(x, s, bit, from + 1);
    }
}

proof fn lemma_knobs_rest(x: Step, s: ControlState, i: int)
    requires
        0 <= i,
        x.st.knobs.len() == KNOBS,
        x.st.cfg.knobs.deadband > 0,
        forall|j: int| i <= j < KNOBS ==> #[trigger] knob_rests(x.st, s, j),
    ensures
        turn_from(x, s, i) == x,
    decreases KNOBS - i,
{
    if i < KNOBS {
        assert(knob_rests(x.st, s, i));
        let y = turn(x, s, i);
        assert(y.st.knobs =~= x.st.knobs);
        assert(y.out =~= x.out);
        lemma_knobs_rest(x, s, i + 1);
    }
}

proof fn lemma_one_knob(x: Step, s: ControlState, i: int, from: int)
    requires
        0 <= from <= i < KNOBS,
        x.st.knobs.len() == KNOBS,
        x.st.cfg.knobs.deadband > 0,
        forall|j: int| from <= j < KNOBS && j != i ==> #[trigger] knob_rests(x.st, s, j),
    ensures
        turn_from(x, s, from) == turn(x, s, i),
    decreases KNOBS - from,
{
    if from == i {
        let y = turn(x, s, i);
        assert forall|j: int| i + 1 <= j < KNOBS implies #[trigger] knob_rests(y.st, s, j) by {
            assert(knob_rests(x.st, s, j));
        }
        lemma_knobs_rest(y, s, i + 1);
    } else {
        assert(knob_rests(x.st, s, from));
        let y = turn(x, s, from);
        assert(y.st.knobs =~= x.st.knobs);
        assert(y.out =~= x.out);
        lemma_one_knob(x, s, i, from + 1);
    }
}

proof fn lemma_pedals_rest(st: EngineState, s: ControlState, n: int)
    requires
        forall|k: int| 0 <= k < n && st.profile.layout.pedal_analog_base + k < ANALOGS ==>
            s.analog@[st.profile.layout.pedal_analog_base + k]
            == #[trigger] st.prev.analog@[st.profile.layout.pedal_analog_base + k],
    ensures
        pedals(st, s, n) == Seq::<Msg>::empty(),
    decreases n,
{
    if n > 0 {
        lemma_pedals_rest(st, s, n - 1);
        let at = st.profile.layout.pedal_analog_base + (n - 1);
        if at < ANALOGS {
            assert(s.analog@[at] == st.prev.analog@[at]);
        }
    }
}

proof fn lemma_analog_rests(x: Step, s: ControlState)
    requires
        analog_rests(x.st, s),
    ensures
        analog(x, s) == x,
{
    lemma_pedals_rest(x.st, s, x.st.cfg.pedal.ccs@.len() as int);
    assert(x.out + Seq::<Msg>::empty() =~= x.out);
}

// Buttons.

/// What a button sends that is now on or off: a note starts and ends, a control goes to its on
/// value and back to 0, and the rest is sent when it comes on.
pub open spec fn named(a: Action, on: bool, m: Seq<Msg>) -> bool {
    match a {
        Action::Nothing => m.len() == 0,
        Action::Note { ch, note, vel } => m.len() == 1 && (on ==> m[0] == Msg::NoteOn {
            ch,
            note,
            vel,
        }) && (!on ==> m[0] == Msg::NoteOff { ch, note, vel: 0 }),
        Action::Cc { ch, cc, on: value } => m.len() == 1 && (on ==> m[0] == Msg::Cc {
            ch,
            cc,
            val: value,
        }) && (!on ==> m[0] == Msg::Cc { ch, cc, val: 0 }),
        Action::Program { ch, num } => if on {
            m == seq![Msg::Program { ch, num }]
        } else {
            m.len() == 0
        },
        Action::Transport(Transport::Start) => if on {
            m == seq![Msg::Start]
        } else {
            m.len() == 0
        },
        Action::Transport(Transport::Stop) => if on {
            m == seq![Msg::Stop]
        } else {
            m.len() == 0
        },
        Action::Transport(Transport::Continue) => if on {
            m == seq![Msg::Continue]
        } else {
            m.len() == 0
        },
    }
}

/// What a button's light shows when it is on or off: a colour one is bright or dim, another one has
/// the brightness that is set for either, up to 127.
pub open spec fn button_shows(cfg: LedCfg, b: CompiledButton, on: bool, byte: u8) -> bool {
    if b.led_mode is Off {
        byte == 0
    } else if b.led_colour >= 0 {
        is_colour(
            byte,
            b.led_colour as u8,
            if on {
                3
            } else {
                1
            },
        )
    } else {
        let set = if on {
            cfg.button_active
        } else {
            cfg.button_idle
        };
        byte <= 127 && (set <= 127 ==> byte == set) && (set > 127 ==> byte == 127)
    }
}

proof fn lemma_button_shows(cfg: LedCfg, b: CompiledButton, on: bool)
    ensures
        button_shows(cfg, b, on, crate::engine::button_byte(cfg, b, on)),
{
    lemma_is_colour(b.led_colour as u8, Level::Bright);
    lemma_is_colour(b.led_colour as u8, Level::Dim);
}

proof fn lemma_only_button(v: Seq<CompiledButton>, bit: int, i: int, n: int)
    requires
        0 <= i < n <= v.len(),
        v[i].bit == bit,
        forall|j: int| 0 <= j < n && j != i ==> (#[trigger] v[j]).bit != bit,
    ensures
        last_on_bit(v, bit, n) == Some(i),
    decreases n,
{
    if n - 1 != i {
        assert(v[n - 1].bit != bit);
        lemma_only_button(v, bit, i, n - 1);
    }
}

proof fn lemma_no_button(v: Seq<CompiledButton>, bit: int, n: int)
    requires
        n <= v.len(),
        forall|j: int| 0 <= j < n ==> (#[trigger] v[j]).bit != bit,
    ensures
        last_on_bit(v, bit, n) is None,
    decreases n,
{
    if n > 0 {
        assert(v[n - 1].bit != bit);
        lemma_no_button(v, bit, n - 1);
    }
}

/// A report in which one button went down or up sends what that button names and lights its light.
///
/// A momentary button is on while it is held, a toggle changes with every press and keeps silent
/// when it is let go, and a trigger fires when it is pressed. A light that follows its button is on
/// with it, and no other light changes.
pub proof fn law_a_button_does_what_it_is_bound_to(x: Step, s: ControlState, bit: int, i: int)
    requires
        x.st.have_prev,
        sized(x.st),
        x.leds.bytes.len() == LED_COUNT,
        0 <= bit < BUTTON_BITS,
        s.held(bit) != x.st.prev.held(bit),
        forall|b: int|
            0 <= b < BUTTON_BITS && b != bit ==> #[trigger] s.held(b) == x.st.prev.held(b),
        knobs_rest(x.st, s),
        s.encoder_lo == x.st.prev.encoder_lo,
        analog_rests(x.st, s),
        0 <= i < x.st.buttons.len() <= MAX_BUTTONS,
        x.st.buttons[i].bit == bit,
        forall|j: int|
            0 <= j < x.st.buttons.len() && j != i ==> (#[trigger] x.st.buttons[j]).bit != bit,
    ensures
        ({
            let b = x.st.buttons[i];
            let y = controls(x, s);
            let down = s.held(bit);
            let was = x.st.toggle[bit];
            let on = if b.mode is Toggle {
                if down {
                    !was
                } else {
                    was
                }
            } else {
                down
            };
            let silent = !down && !(b.mode is Momentary);
            &&& x.out.len() <= y.out.len()
            &&& y.out.take(x.out.len() as int) == x.out
            &&& if silent {
                y.out == x.out
            } else {
                named(b.action, on, y.out.skip(x.out.len() as int))
            }
            &&& y.st.toggle == x.st.toggle.update(
                bit,
                if b.mode is Toggle {
                    on
                } else {
                    was
                },
            )
            &&& if x.st.cfg.leds.enabled && b.led >= 0 && b.led_mode is Follow {
                exists|byte: u8|
                    button_shows(x.st.cfg.leds, b, on, byte) && #[trigger] only_slot(
                        x.leds.bytes,
                        y.leds.bytes,
                        b.led as int,
                        byte,
                    )
            } else {
                y.leds.bytes == x.leds.bytes
            }
            &&& y.st == EngineState { toggle: y.st.toggle, prev: s, ..x.st }
        }),
{
    let b = x.st.buttons[i];
    let down = s.held(bit);
    let was = x.st.toggle[bit];
    let y = controls(x, s);
    lemma_only_button(x.st.buttons, bit, i, x.st.buttons.len() as int);
    lemma_one_button(x, s, bit, 0);
    let z = fire(x, bit, down);
    assert forall|j: int| 0 <= j < KNOBS implies #[trigger] knob_rests(z.st, s, j) by {
        assert(knob_rests(x.st, s, j));
    }
    lemma_knobs_rest(z, s, 0);
    lemma_analog_rests(z, s);
    assert(turn_encoder(z, s) == z);
    assert(y.out == z.out);
    assert(y.out.take(x.out.len() as int) =~= x.out);
    let m = crate::engine::button_sends(b, was, down);
    assert(y.out.skip(x.out.len() as int) =~= crate::engine::push_some(Seq::empty(), m));
    let on = crate::engine::button_glows(b, was, down);
    lemma_button_shows(x.st.cfg.leds, b, on);
    if x.st.cfg.leds.enabled && b.led >= 0 && b.led_mode is Follow {
        let byte = crate::engine::button_byte(x.st.cfg.leds, b, on);
        assert(button_shows(x.st.cfg.leds, b, on, byte));
        assert(only_slot(x.leds.bytes, y.leds.bytes, b.led as int, byte));
    }
}

/// Two buttons that changed in one report do what they do in two reports, the lower bit first.
pub proof fn law_buttons_are_taken_in_order(x: Step, s: ControlState, a: int, b: int)
    requires
        0 <= a < b < BUTTON_BITS,
        s.held(a) != x.st.prev.held(a),
        s.held(b) != x.st.prev.held(b),
        forall|c: int|
            0 <= c < BUTTON_BITS && c != a && c != b ==> #[trigger] s.held(c) == x.st.prev.held(c),
    ensures
        fire_from(x, s, 0) == fire(fire(x, a, s.held(a)), b, s.held(b)),
{
    lemma_two_buttons(x, s, a, b, 0);
}

proof fn lemma_two_buttons(x: Step, s: ControlState, a: int, b: int, from: int)
    requires
        0 <= from <= a < b < BUTTON_BITS,
        s.held(a) != x.st.prev.held(a),
        s.held(b) != x.st.prev.held(b),
        forall|c: int|
            0 <= c < BUTTON_BITS && c != a && c != b ==> #[trigger] s.held(c) == x.st.prev.held(c),
    ensures
        fire_from(x, s, from) == fire(fire(x, a, s.held(a)), b, s.held(b)),
    decreases a - from,
{
    if from == a {
        let y = fire(x, a, s.held(a));
        assert(y.st.prev == x.st.prev);
        lemma_one_button(y, s, b, a + 1);
    } else {
        assert(s.held(from) == x.st.prev.held(from));
        lemma_two_buttons(x, s, a, b, from + 1);
    }
}

/// A button that nothing is bound to does nothing.
pub proof fn law_an_unbound_button_is_silent(x: Step, s: ControlState, bit: int)
    requires
        x.st.have_prev,
        sized(x.st),
        0 <= bit < BUTTON_BITS,
        s.held(bit) != x.st.prev.held(bit),
        forall|b: int|
            0 <= b < BUTTON_BITS && b != bit ==> #[trigger] s.held(b) == x.st.prev.held(b),
        knobs_rest(x.st, s),
        s.encoder_lo == x.st.prev.encoder_lo,
        analog_rests(x.st, s),
        forall|j: int| 0 <= j < x.st.buttons.len() ==> (#[trigger] x.st.buttons[j]).bit != bit,
    ensures
        controls(x, s) == (Step { st: EngineState { prev: s, ..x.st }, ..x }),
{
    lemma_no_button(
        x.st.buttons,
        bit,
        crate::config::min_int(x.st.buttons.len() as int, MAX_BUTTONS as int),
    );
    lemma_one_button(x, s, bit, 0);
    lemma_knobs_rest(x, s, 0);
    lemma_analog_rests(x, s);
}

// The encoder.

/// `d` is how far a counter of `m` steps went from one reading to another, the short way round.
pub open spec fn moved(from: int, to: int, m: int, d: int) -> bool {
    (from + d - to) % m == 0 && -m < 2 * d <= m
}

proof fn lemma_moved(from: int, to: int, m: int, d: int)
    requires
        m > 0,
        moved(from, to, m, d),
    ensures
        short_way(from, to, m) == d,
{
    law_short_way(from, to, m);
    let e = short_way(from, to, m);
    let (a, b) = (from + d - to, from + e - to);
    vstd::arithmetic::div_mod::lemma_fundamental_div_mod(a, m);
    vstd::arithmetic::div_mod::lemma_fundamental_div_mod(b, m);
    let (p, q) = (a / m, b / m);
    assert(a - b == m * (p - q)) by (nonlinear_arith)
        requires
            a == m * p,
            b == m * q,
    ;
    assert(p == q) by (nonlinear_arith)
        requires
            a - b == m * (p - q),
            -m < a - b < m,
            m > 0,
    ;
}

/// `val` stands for a step in a relative format, which counts for at most 63 either way.
pub open spec fn reads_as(f: RelFormat, val: u8, step: int) -> bool {
    let counted = if step > 63 {
        63
    } else if step < -63 {
        -63
    } else {
        step
    };
    &&& val < 128
    &&& match f {
        RelFormat::Twos => (val - counted) % 128 == 0,
        RelFormat::BinOffset => val - 64 == counted,
        RelFormat::SignBit => val % 64 == if counted < 0 {
            -counted
        } else {
            counted
        } && (val >= 64 <==> counted < 0),
    }
}

proof fn lemma_reads_as(f: RelFormat, step: int)
    ensures
        reads_as(f, f.encoded(step) as u8, step),
{
}

/// A report in which only the encoder turned.
pub open spec fn encoder_turned(st: EngineState, s: ControlState, clicks: int) -> bool {
    &&& st.have_prev
    &&& sized(st)
    &&& buttons_rest(st, s)
    &&& knobs_rest(st, s)
    &&& analog_rests(st, s)
    &&& moved(st.prev.encoder_lo as int, s.encoder_lo as int, 16, clicks)
}

proof fn lemma_encoder_turned(x: Step, s: ControlState, clicks: int)
    requires
        encoder_turned(x.st, s, clicks),
    ensures
        ({
            let y = turn_encoder(x, s);
            controls(x, s) == Step { st: EngineState { prev: s, ..y.st }, ..y }
        }),
        short_way(x.st.prev.encoder_lo as int, s.encoder_lo as int, 16) == clicks,
{
    lemma_buttons_rest(x, s, 0);
    lemma_knobs_rest(x, s, 0);
    lemma_moved(x.st.prev.encoder_lo as int, s.encoder_lo as int, 16, clicks);
    lemma_analog_rests(turn_encoder(x, s), s);
}

/// An encoder that keeps a position moves it by a step for each click, either way, and stops at 0
/// and at 127. The new position is sent where it is another one.
pub proof fn law_the_encoder_counts_clicks(x: Step, s: ControlState, clicks: int)
    requires
        encoder_turned(x.st, s, clicks),
        clicks != 0,
        x.st.cfg.encoder.channel >= 1,
        !(x.st.cfg.encoder.mode is Relative),
    ensures
        ({
            let e = x.st.cfg.encoder;
            let y = controls(x, s);
            let sum = x.st.encoder_pos + clicks * e.step;
            let pos = y.st.encoder_pos;
            &&& 0 <= sum <= 127 ==> pos == sum
            &&& sum < 0 ==> pos == 0
            &&& sum > 127 ==> pos == 127
            &&& y.out == if pos == x.st.encoder_pos {
                x.out
            } else {
                x.out.push(Msg::Cc { ch: (e.channel - 1) as u8, cc: e.cc, val: pos as u8 })
            }
            &&& pos != x.st.encoder_pos ==> y.st.outputs.encoder == pos
            &&& y.leds == x.leds
            &&& y.st.knobs == x.st.knobs
        }),
{
    lemma_encoder_turned(x, s, clicks);
}

/// Clicks one way and as many back put the encoder where it was, as long as it reached neither end.
pub proof fn law_the_encoder_comes_back(x: Step, there: ControlState, back: ControlState, clicks: int)
    requires
        encoder_turned(x.st, there, clicks),
        encoder_turned(controls(x, there).st, back, -clicks),
        clicks != 0,
        x.st.cfg.encoder.channel >= 1,
        !(x.st.cfg.encoder.mode is Relative),
        0 <= x.st.encoder_pos <= 127,
        0 <= x.st.encoder_pos + clicks * x.st.cfg.encoder.step <= 127,
    ensures
        controls(controls(x, there), back).st.encoder_pos == x.st.encoder_pos,
        x.st.cfg.encoder.step != 0 ==> {
            &&& controls(controls(x, there), back).out.len() == x.out.len() + 2
            &&& controls(controls(x, there), back).out.last() == Msg::Cc {
                ch: (x.st.cfg.encoder.channel - 1) as u8,
                cc: x.st.cfg.encoder.cc,
                val: x.st.encoder_pos as u8,
            }
        },
{
    let y = controls(x, there);
    let step = x.st.cfg.encoder.step as int;
    law_the_encoder_counts_clicks(x, there, clicks);
    lemma_encoder_turned(x, there, clicks);
    assert((-clicks) * step == -(clicks * step)) by (nonlinear_arith);
    law_the_encoder_counts_clicks(y, back, -clicks);
    if step != 0 {
        assert(clicks * step != 0) by (nonlinear_arith)
            requires
                clicks != 0,
                step != 0,
        ;
    }
}

/// A relative encoder sends each movement as a step that the host reads back, and keeps no position.
pub proof fn law_a_relative_encoder_sends_steps(x: Step, s: ControlState, clicks: int)
    requires
        encoder_turned(x.st, s, clicks),
        clicks != 0,
        x.st.cfg.encoder.channel >= 1,
        x.st.cfg.encoder.mode is Relative,
    ensures
        ({
            let e = x.st.cfg.encoder;
            let y = controls(x, s);
            let val = y.st.outputs.encoder;
            &&& reads_as(e.relative_format, val, clicks * e.step)
            &&& y.out == x.out.push(Msg::Cc { ch: (e.channel - 1) as u8, cc: e.cc, val })
            &&& y.st.encoder_pos == x.st.encoder_pos
            &&& y.leds == x.leds
        }),
{
    lemma_encoder_turned(x, s, clicks);
    lemma_reads_as(x.st.cfg.encoder.relative_format, clicks * x.st.cfg.encoder.step);
}

// Knobs.

/// `value` is to `of` what `part` is to `full`, rounded down.
pub open spec fn share(value: int, of: int, part: int, full: int) -> bool {
    full * value <= of * part && of * part < full * (value + 1)
}

proof fn lemma_share(of: int, part: int, full: int)
    requires
        full > 0,
    ensures
        share((part * of) / full, of, part, full),
        0 <= part <= full && 0 <= of ==> 0 <= (part * of) / full <= of,
{
    let a = part * of;
    let q = a / full;
    vstd::arithmetic::div_mod::lemma_fundamental_div_mod(a, full);
    assert(a == of * part) by (nonlinear_arith)
        requires
            a == part * of,
    ;
    assert(full * (q + 1) == full * q + full) by (nonlinear_arith);
    if 0 <= part <= full && 0 <= of {
        assert(0 <= q <= of) by (nonlinear_arith)
            requires
                a == part * of,
                0 <= part <= full,
                0 <= of,
                full > 0,
                full * q <= a,
                a < full * q + full,
        ;
    }
}

/// A report in which only knob `i` turned, by `d` steps of its thousand.
pub open spec fn knob_turned(st: EngineState, s: ControlState, i: int, d: int) -> bool {
    &&& st.have_prev
    &&& sized(st)
    &&& buttons_rest(st, s)
    &&& analog_rests(st, s)
    &&& s.encoder_lo == st.prev.encoder_lo
    &&& st.cfg.knobs.deadband > 0
    &&& st.cfg.knobs.channel >= 1
    &&& st.cfg.knobs.ccs@.len() == KNOBS
    &&& 0 <= i < KNOBS
    &&& forall|j: int| 0 <= j < KNOBS && j != i ==> #[trigger] knob_rests(st, s, j)
    &&& moved(st.knobs[i].raw as int, (s.knobs@[i] % 1000) as int, 1000, d)
}

/// What a knob sends: its value on its own controller.
pub open spec fn knob_sends(k: KnobCfg, i: int, val: u8) -> Msg {
    Msg::Cc { ch: (k.channel - 1) as u8, cc: k.ccs@[i], val }
}

/// A value of 14 bits goes out as its upper seven bits and then, 32 controllers on, its lower seven.
pub open spec fn in_two_halves(k: KnobCfg, i: int, out: Seq<Msg>, value: int) -> bool {
    &&& out.len() == 2
    &&& out[0] matches Msg::Cc { ch, cc, val } && ch + 1 == k.channel && cc == k.ccs@[i] && val < 128
    &&& out[1] matches Msg::Cc { ch, cc, val } && ch + 1 == k.channel && cc == k.ccs@[i] + 32 && val
        < 128
    &&& 128 * out[0]->Cc_val + out[1]->Cc_val == value
}

proof fn lemma_knob_turned(x: Step, s: ControlState, i: int, d: int)
    requires
        knob_turned(x.st, s, i, d),
    ensures
        ({
            let y = turn(x, s, i);
            controls(x, s) == Step { st: EngineState { prev: s, ..y.st }, ..y }
        }),
        short_way(x.st.knobs[i].raw as int, (s.knobs@[i] % 1000) as int, 1000) == d,
{
    lemma_buttons_rest(x, s, 0);
    lemma_one_knob(x, s, i, 0);
    lemma_moved(x.st.knobs[i].raw as int, (s.knobs@[i] % 1000) as int, 1000, d);
    let y = turn(x, s, i);
    lemma_analog_rests(y, s);
}

/// A movement within the deadband does nothing, and the next one is measured from where the knob
/// was heard last.
pub proof fn law_small_movements_are_not_heard(x: Step, s: ControlState, i: int, d: int)
    requires
        knob_turned(x.st, s, i, d),
        -x.st.cfg.knobs.deadband < d < x.st.cfg.knobs.deadband,
    ensures
        controls(x, s) == (Step { st: EngineState { prev: s, ..x.st }, ..x }),
{
    lemma_knob_turned(x, s, i, d);
    assert(turn(x, s, i).st.knobs =~= x.st.knobs);
    assert(turn(x, s, i).out =~= x.out);
}

/// An accumulating knob adds its movements up, between 0 and its travel, from where its initial
/// value puts it. Its value is to 127 what the sum is to the travel, and is sent where it changed,
/// or for the first movement.
pub proof fn law_an_accumulating_knob_adds_up(x: Step, s: ControlState, i: int, d: int, from: int)
    requires
        knob_turned(x.st, s, i, d),
        d <= -x.st.cfg.knobs.deadband || x.st.cfg.knobs.deadband <= d,
        x.st.cfg.knobs.mode is Accumulate,
        x.st.cfg.knobs.travel >= 1,
        x.st.cfg.knobs.high_resolution ==> x.st.cfg.knobs.ccs@[i] < 224,
        x.st.knobs[i].seen ==> from == x.st.knobs[i].accum,
        !x.st.knobs[i].seen ==> share(
            from,
            x.st.cfg.knobs.travel as int,
            x.st.cfg.knobs.initial as int,
            127,
        ),
    ensures
        ({
            let k = x.st.cfg.knobs;
            let y = controls(x, s);
            let was = x.st.knobs[i];
            let now = y.st.knobs[i];
            let full = k.travel as int;
            &&& 0 <= from + d <= full ==> now.accum == from + d
            &&& from + d < 0 ==> now.accum == 0
            &&& from + d > full ==> now.accum == full
            &&& now.raw == s.knobs@[i] % 1000
            &&& now.seen && now.engaged == was.engaged
            &&& share(now.last_sent as int, 127, now.accum as int, full)
            &&& y.st.knobs == x.st.knobs.update(i, now)
            &&& y.leds == x.leds
            &&& if was.seen && now.last_sent == was.last_sent {
                y.out == x.out && y.st.outputs == x.st.outputs
            } else if k.high_resolution {
                &&& y.out.take(x.out.len() as int) == x.out
                &&& exists|w: int| #[trigger]
                    share(w, 16383, now.accum as int, full) && in_two_halves(
                        k,
                        i,
                        y.out.skip(x.out.len() as int),
                        w,
                    )
            } else {
                &&& y.out == x.out.push(knob_sends(k, i, now.last_sent))
                &&& y.st.outputs.knobs == x.st.outputs.knobs.update(i, now.last_sent)
            }
        }),
{
    let k = x.st.cfg.knobs;
    let full = k.travel as int;
    let was = x.st.knobs[i];
    lemma_knob_turned(x, s, i, d);
    let at = (k.initial * full) / 127;
    if !was.seen {
        lemma_share(full, k.initial as int, 127);
        assert(from == at);
    }
    let accum = if from + d < 0 {
        0
    } else if from + d > full {
        full
    } else {
        from + d
    };
    lemma_share(127, accum, full);
    lemma_share(16383, accum, full);
    let y = controls(x, s);
    let now = y.st.knobs[i];
    assert(now.accum == accum);
    if was.seen && now.last_sent == was.last_sent {
        assert(y.out =~= x.out);
    } else if k.high_resolution {
        let w = (accum * 16383) / full;
        let two = y.out.skip(x.out.len() as int);
        assert(y.out.take(x.out.len() as int) =~= x.out);
        assert(two =~= crate::engine::cc14((k.channel - 1) as u8, k.ccs@[i], w));
        assert(share(w, 16383, now.accum as int, full));
        assert(in_two_halves(k, i, two, w));
    } else {
        assert(y.out =~= x.out.push(knob_sends(k, i, now.last_sent)));
    }
}

/// Turned one way and as far back, an accumulating knob is where it was and stands for the same
/// value, as long as it reached neither end.
pub proof fn law_an_accumulating_knob_comes_back(
    x: Step,
    there: ControlState,
    back: ControlState,
    i: int,
    d: int,
)
    requires
        knob_turned(x.st, there, i, d),
        knob_turned(controls(x, there).st, back, i, -d),
        d <= -x.st.cfg.knobs.deadband || x.st.cfg.knobs.deadband <= d,
        x.st.cfg.knobs.mode is Accumulate,
        x.st.cfg.knobs.travel >= 1,
        x.st.cfg.knobs.high_resolution ==> x.st.cfg.knobs.ccs@[i] < 224,
        x.st.knobs[i].seen,
        0 <= x.st.knobs[i].accum <= x.st.cfg.knobs.travel,
        share(
            x.st.knobs[i].last_sent as int,
            127,
            x.st.knobs[i].accum as int,
            x.st.cfg.knobs.travel as int,
        ),
        0 <= x.st.knobs[i].accum + d <= x.st.cfg.knobs.travel,
    ensures
        controls(controls(x, there), back).st.knobs[i].accum == x.st.knobs[i].accum,
        controls(controls(x, there), back).st.knobs[i].last_sent == x.st.knobs[i].last_sent,
{
    let y = controls(x, there);
    let a = x.st.knobs[i].accum as int;
    let full = x.st.cfg.knobs.travel as int;
    lemma_knob_turned(x, there, i, d);
    law_an_accumulating_knob_adds_up(x, there, i, d, a);
    law_an_accumulating_knob_adds_up(y, back, i, -d, a + d);
    let z = controls(y, back);
    let (v, w) = (x.st.knobs[i].last_sent as int, z.st.knobs[i].last_sent as int);
    assert(v == w) by (nonlinear_arith)
        requires
            full > 0,
            full * v <= 127 * a,
            127 * a < full * (v + 1),
            full * w <= 127 * a,
            127 * a < full * (w + 1),
    ;
}

/// A relative knob sends an eighth of each movement as a step, rounded away from 0, and keeps no
/// value.
pub proof fn law_a_relative_knob_sends_steps(x: Step, s: ControlState, i: int, d: int, step: int)
    requires
        knob_turned(x.st, s, i, d),
        d <= -x.st.cfg.knobs.deadband || x.st.cfg.knobs.deadband <= d,
        x.st.cfg.knobs.mode is Relative,
        d >= 0 ==> 8 * step - 7 <= d <= 8 * step,
        d < 0 ==> 8 * step <= d <= 8 * step + 7,
    ensures
        ({
            let k = x.st.cfg.knobs;
            let y = controls(x, s);
            let val = y.st.outputs.knobs[i];
            &&& reads_as(k.relative_format, val, step)
            &&& y.out == x.out.push(knob_sends(k, i, val))
            &&& y.st.outputs.knobs == x.st.outputs.knobs.update(i, val)
            &&& y.st.knobs == x.st.knobs.update(
                i,
                KnobState { raw: (s.knobs@[i] % 1000) as u16, seen: true, ..x.st.knobs[i] },
            )
        }),
{
    let k = x.st.cfg.knobs;
    lemma_knob_turned(x, s, i, d);
    assert(crate::engine::relative_step(d) == step);
    lemma_reads_as(k.relative_format, step);
    let y = controls(x, s);
    assert(y.out =~= x.out.push(knob_sends(k, i, y.st.outputs.knobs[i])));
}

/// A knob that stands at `pos` of its 999 stands for `v` of 127.
pub open spec fn stands_for(pos: int, v: int) -> bool {
    share(v, 127, pos, 999)
}

/// Knob positions on the way from `from`, over a movement by `d`: `t` steps of it were made.
pub open spec fn on_the_way(d: int, t: int) -> bool {
    0 <= t <= d || d <= t <= 0
}

/// A knob that moved by `d` from `from` gets_to the value `host`: it ends within one of it, or was at
/// it on the way.
pub open spec fn gets_to(from: int, d: int, host: int) -> bool {
    ||| exists|v: int| #[trigger] stands_for((from + d) % 1000, v) && -1 <= host - v <= 1
    ||| exists|t: int| on_the_way(d, t) && #[trigger] stands_for((from + t) % 1000, host)
}

proof fn lemma_stands_for(pos: u16)
    requires
        pos < 1000,
    ensures
        stands_for(pos as int, crate::engine::position_value(pos) as int),
        crate::engine::position_value(pos) <= 127,
        forall|v: int| stands_for(pos as int, v) ==> v == crate::engine::position_value(pos),
{
    lemma_share(127, pos as int, 999);
}

#[verifier::rlimit(40)]
#[verifier::spinoff_prover]
proof fn lemma_reaches(from: u16, to: u16, d: int, host: u8)
    requires
        from < 1000,
        to < 1000,
        host <= 127,
        moved(from as int, to as int, 1000, d),
    ensures
        crate::engine::passes(from, to, host) <==> gets_to(from as int, d, host as int),
{
    lemma_moved(from as int, to as int, 1000, d);
    lemma_stands_for(from);
    lemma_stands_for(to);
    let a = crate::engine::position_value(from) as int;
    let b = crate::engine::position_value(to) as int;
    let h = host as int;
    let f = from as int;
    assert((f + d) % 1000 == to);
    assert((f + 0) % 1000 == f);
    if -1 <= h - b <= 1 {
        assert(stands_for((f + d) % 1000, b));
    }
    if crate::engine::passes(from, to, host) && !(-1 <= h - b <= 1) {
        // The first position that stands for the host's value.
        let p = (999 * h + 126) / 127;
        assert(stands_for(p, h));
        if h == a {
            assert(on_the_way(d, 0) && stands_for((f + 0) % 1000, h));
        } else {
            let t = if f + d == to || (d > 0) == (p > f) {
                p - f
            } else if d > 0 {
                p + 1000 - f
            } else {
                p - 1000 - f
            };
            assert((f + t) % 1000 == p);
            assert(on_the_way(d, t) && stands_for((f + t) % 1000, h));
        }
        assert(gets_to(f, d, h));
    }
    if gets_to(f, d, h) {
        if exists|v: int| #[trigger] stands_for((f + d) % 1000, v) && -1 <= h - v <= 1 {
        } else {
            let t = choose|t: int| on_the_way(d, t) && #[trigger] stands_for((f + t) % 1000, h);
            assert(on_the_way(d, t) && stands_for((f + t) % 1000, h));
        }
    }
}

/// A knob that is read as it stands sends the value that it stands for, where that changed. In
/// pickup mode one that the host has taken elsewhere keeps silent until it gets_to the host's value.
pub proof fn law_an_absolute_knob_sends_where_it_stands(x: Step, s: ControlState, i: int, d: int)
    requires
        knob_turned(x.st, s, i, d),
        d <= -x.st.cfg.knobs.deadband || x.st.cfg.knobs.deadband <= d,
        x.st.cfg.knobs.mode is Absolute,
        x.st.knobs[i].raw < 1000,
        x.st.knobs[i].last_sent <= 127,
        x.st.cfg.knobs.high_resolution ==> x.st.cfg.knobs.ccs@[i] < 224,
    ensures
        ({
            let k = x.st.cfg.knobs;
            let y = controls(x, s);
            let was = x.st.knobs[i];
            let now = y.st.knobs[i];
            let pos = s.knobs@[i] % 1000;
            let waits = k.pickup is Pickup && !was.engaged && was.seen && !gets_to(
                was.raw as int,
                d,
                was.last_sent as int,
            );
            &&& now.raw == pos
            &&& now.accum == was.accum
            &&& y.st.knobs == x.st.knobs.update(i, now)
            &&& y.leds == x.leds
            &&& if k.high_resolution {
                &&& now == KnobState { raw: pos, seen: true, ..was }
                &&& y.out.take(x.out.len() as int) == x.out
                &&& exists|w: int| #[trigger]
                    share(w, 16383, pos as int, 999) && in_two_halves(
                        k,
                        i,
                        y.out.skip(x.out.len() as int),
                        w,
                    )
            } else if waits {
                &&& now == KnobState { raw: pos, ..was }
                &&& y.out == x.out
                &&& y.st.outputs == x.st.outputs
            } else {
                &&& now.seen && now.engaged == (was.engaged || k.pickup is Pickup)
                &&& stands_for(pos as int, now.last_sent as int)
                &&& if was.seen && now.last_sent == was.last_sent {
                    y.out == x.out && y.st.outputs == x.st.outputs
                } else {
                    &&& y.out == x.out.push(knob_sends(k, i, now.last_sent))
                    &&& y.st.outputs.knobs == x.st.outputs.knobs.update(i, now.last_sent)
                }
            }
        }),
{
    let k = x.st.cfg.knobs;
    let was = x.st.knobs[i];
    let pos = (s.knobs@[i] % 1000) as u16;
    lemma_knob_turned(x, s, i, d);
    lemma_stands_for(pos);
    lemma_reaches(was.raw, pos, d, was.last_sent);
    lemma_share(16383, pos as int, 999);
    let y = controls(x, s);
    let now = y.st.knobs[i];
    if k.high_resolution {
        let w = (pos * 16383) / 999;
        let two = y.out.skip(x.out.len() as int);
        assert(y.out.take(x.out.len() as int) =~= x.out);
        assert(two =~= crate::engine::cc14((k.channel - 1) as u8, k.ccs@[i], w));
        assert(share(w, 16383, pos as int, 999));
        assert(in_two_halves(k, i, two, w));
    } else if y.st.outputs == x.st.outputs {
        assert(y.out =~= x.out || y.out =~= x.out.push(knob_sends(k, i, now.last_sent)));
    } else {
        assert(y.out =~= x.out.push(knob_sends(k, i, now.last_sent)));
    }
}

/// Knobs that turn in one report do what they do one after the other, the first of them first.
pub proof fn law_knobs_are_taken_in_order(x: Step, s: ControlState, i: int, j: int)
    requires
        0 <= i < j < KNOBS,
        sized(x.st),
        x.st.cfg.knobs.deadband > 0,
        forall|k: int| 0 <= k < KNOBS && k != i && k != j ==> #[trigger] knob_rests(x.st, s, k),
    ensures
        turn_from(x, s, 0) == turn(turn(x, s, i), s, j),
{
    lemma_two_knobs(x, s, i, j, 0);
}

proof fn lemma_two_knobs(x: Step, s: ControlState, i: int, j: int, from: int)
    requires
        0 <= from <= i < j < KNOBS,
        sized(x.st),
        x.st.cfg.knobs.deadband > 0,
        forall|k: int| from <= k < KNOBS && k != i && k != j ==> #[trigger] knob_rests(x.st, s, k),
    ensures
        turn_from(x, s, from) == turn(turn(x, s, i), s, j),
    decreases i - from,
{
    if from == i {
        let y = turn(x, s, i);
        assert forall|k: int| i + 1 <= k < KNOBS && k != j implies #[trigger] knob_rests(
            y.st,
            s,
            k,
        ) by {
            assert(knob_rests(x.st, s, k));
        }
        lemma_one_knob(y, s, j, i + 1);
    } else {
        assert(knob_rests(x.st, s, from));
        let y = turn(x, s, from);
        assert(y.st.knobs =~= x.st.knobs);
        assert(y.out =~= x.out);
        lemma_two_knobs(x, s, i, j, from + 1);
    }
}

// The strip and the pedals.

/// `val` is what a reading out of `full` is sent as: its share of 127, and 127 from full scale on.
pub open spec fn is_scaled(val: u8, reading: int, full: int) -> bool {
    if reading > full {
        val == 127
    } else {
        share(val as int, 127, reading, full)
    }
}

/// A reading is sent as its share of 127.
pub proof fn law_readings_are_scaled(reading: u16, full: int)
    requires
        full > 0,
    ensures
        is_scaled(scaled(reading, full), reading as int, full),
        scaled(reading, full) <= 127,
{
    let part = if reading < full {
        reading as int
    } else {
        full
    };
    lemma_share(127, part, full);
    let v = (part * 127) / full;
    if reading > full {
        assert(v >= 127) by (nonlinear_arith)
            requires
                127 * full < full * (v + 1),
                full > 0,
        ;
    }
}

/// The strip's segments after a finger is at `reading`: segment `i` is lit exactly where the finger
/// is past its lower edge, and the other slots are as they were.
pub open spec fn strip_shows(st: EngineState, before: Seq<u8>, after: Seq<u8>, reading: int) -> bool {
    let l = st.profile.layout;
    let t = st.cfg.touchstrip;
    let reading = if reading > l.strip_max {
        l.strip_max as int
    } else {
        reading
    };
    let from_the_end = l.strip_led_reversed != t.led_reversed;
    &&& after.len() == before.len()
    &&& forall|k: int|
        0 <= k < after.len() && !(l.strip_led_base <= k < l.strip_led_base + l.strip_leds)
            ==> #[trigger] after[k] == before[k]
    &&& forall|k: int|
        0 <= k < after.len() && l.strip_led_base <= k < l.strip_led_base + l.strip_leds ==> {
            let i = if from_the_end {
                l.strip_led_base + l.strip_leds - 1 - k
            } else {
                k - l.strip_led_base
            };
            #[trigger] after[k] == if i * l.strip_max < reading * l.strip_leds {
                t.led_value
            } else {
                0
            }
        }
}

proof fn lemma_lit_segment(l: Layout, raw: u16, i: int)
    requires
        l.strip_max >= 1,
        i >= 0,
    ensures
        i < segments(l, raw) <==> i * l.strip_max < (if raw > l.strip_max {
            l.strip_max as int
        } else {
            raw as int
        }) * l.strip_leds,
{
    let full = l.strip_max as int;
    let r = if raw > l.strip_max {
        full
    } else {
        raw as int
    };
    let n = l.strip_leds as int;
    let a = r * n;
    assert(a >= 0) by (nonlinear_arith)
        requires
            a == r * n,
            r >= 0,
            n >= 0,
    ;
    assert(i * full >= 0) by (nonlinear_arith)
        requires
            i >= 0,
            full >= 0,
    ;
    if raw == 0 {
        assert(a == 0) by (nonlinear_arith)
            requires
                a == r * n,
                r == 0,
        ;
    } else {
        let q = (a + full - 1) / full;
        vstd::arithmetic::div_mod::lemma_fundamental_div_mod(a + full - 1, full);
        assert(segments(l, raw) == q);
        assert((i < q) == (i * full < a)) by (nonlinear_arith)
            requires
                full > 0,
                full * q <= a + full - 1,
                a + full - 1 < full * q + full,
        ;
    }
}

proof fn lemma_segments_lit(
    leds: crate::leds::Lamps,
    l: Layout,
    reversed: bool,
    value: u8,
    on: int,
    n: int,
)
    requires
        leds.bytes.len() == LED_COUNT,
        0 <= n <= l.strip_leds,
    ensures
        ({
            let after = light_segments(leds, l, reversed, value, on, n).bytes;
            &&& after.len() == leds.bytes.len()
            &&& forall|k: int|
                0 <= k < LED_COUNT ==> {
                    let i = if reversed {
                        l.strip_led_base + l.strip_leds - 1 - k
                    } else {
                        k - l.strip_led_base
                    };
                    #[trigger] after[k] == if 0 <= i < n {
                        if i < on {
                            value
                        } else {
                            0
                        }
                    } else {
                        leds.bytes[k]
                    }
                }
        }),
    decreases n,
{
    if n > 0 {
        lemma_segments_lit(leds, l, reversed, value, on, n - 1);
    }
}

proof fn lemma_strip_shows(st: EngineState, leds: crate::leds::Lamps, raw: u16)
    requires
        leds.bytes.len() == LED_COUNT,
        st.cfg.leds.enabled && st.cfg.touchstrip.leds,
        st.profile.layout.strip_max >= 1,
    ensures
        strip_shows(
            st,
            leds.bytes,
            crate::engine::light_strip_of(leds, st.cfg, st.profile.layout, raw).bytes,
            raw as int,
        ),
{
    let l = st.profile.layout;
    let t = st.cfg.touchstrip;
    let from_the_end = l.strip_led_reversed != t.led_reversed;
    let n = l.strip_leds as int;
    lemma_segments_lit(leds, l, from_the_end, t.led_value, segments(l, raw), n);
    assert forall|i: int| 0 <= i < n implies (i < segments(l, raw) <==> #[trigger] (i
        * l.strip_max) < (if raw > l.strip_max {
        l.strip_max as int
    } else {
        raw as int
    }) * l.strip_leds) by {
        lemma_lit_segment(l, raw, i);
    }
}

/// A report in which only the analog field `at` changed.
pub open spec fn field_changed(st: EngineState, s: ControlState, at: int) -> bool {
    &&& st.have_prev
    &&& sized(st)
    &&& buttons_rest(st, s)
    &&& knobs_rest(st, s)
    &&& s.encoder_lo == st.prev.encoder_lo
    &&& 0 <= at < ANALOGS
    &&& s.analog@[at] != st.prev.analog@[at]
    &&& forall|k: int| 0 <= k < ANALOGS && k != at ==> s.analog@[k] == #[trigger] st.prev.analog@[k]
}

/// A finger on the strip sends the share of 127 that its position is of full scale, and the strip's
/// lights fill up to it.
pub proof fn law_the_strip_sends_where_the_finger_is(x: Step, s: ControlState, at: int)
    requires
        field_changed(x.st, s, at),
        x.leds.bytes.len() == LED_COUNT,
        x.st.profile.layout.strip_max >= 1,
        at == x.st.profile.layout.strip_analog,
        at < x.st.profile.layout.analog_count,
        x.st.cfg.touchstrip.channel >= 1,
        at < x.st.profile.layout.pedal_analog_base,
    ensures
        ({
            let t = x.st.cfg.touchstrip;
            let y = controls(x, s);
            let reading = s.analog@[at] as int;
            &&& if t.enabled {
                let val = y.st.outputs.strip;
                &&& is_scaled(val, reading, x.st.profile.layout.strip_max as int)
                &&& y.out == x.out.push(Msg::Cc { ch: (t.channel - 1) as u8, cc: t.cc, val })
            } else {
                &&& y.out == x.out
                &&& y.st.outputs == x.st.outputs
            }
            &&& if x.st.cfg.leds.enabled && t.leds {
                strip_shows(x.st, x.leds.bytes, y.leds.bytes, reading)
            } else {
                y.leds == x.leds
            }
        }),
{
    let l = x.st.profile.layout;
    lemma_buttons_rest(x, s, 0);
    lemma_knobs_rest(x, s, 0);
    law_readings_are_scaled(s.analog@[at], l.strip_max as int);
    let y = slide(x, s);
    lemma_pedals_rest(y.st, s, y.st.cfg.pedal.ccs@.len() as int);
    assert(y.out + Seq::<Msg>::empty() =~= y.out);
    if x.st.cfg.leds.enabled && x.st.cfg.touchstrip.leds {
        lemma_strip_shows(x.st, x.leds, s.analog@[at]);
    }
}

proof fn lemma_one_pedal(st: EngineState, s: ControlState, k: int, n: int)
    requires
        0 <= k < n <= st.cfg.pedal.ccs@.len(),
        st.profile.layout.pedal_analog_base + k < ANALOGS,
        s.analog@[st.profile.layout.pedal_analog_base + k]
            != st.prev.analog@[st.profile.layout.pedal_analog_base + k],
        forall|j: int|
            0 <= j < ANALOGS && j != st.profile.layout.pedal_analog_base + k ==> s.analog@[j]
                == #[trigger] st.prev.analog@[j],
    ensures
        pedals(st, s, n).len() == 1,
        pedals(st, s, n) == pedals(st, s, k + 1),
    decreases n,
{
    let at = st.profile.layout.pedal_analog_base + (n - 1);
    if n - 1 == k {
        assert forall|j: int|
            0 <= j < n - 1 && st.profile.layout.pedal_analog_base + j
                < ANALOGS implies s.analog@[st.profile.layout.pedal_analog_base + j]
            == #[trigger] st.prev.analog@[st.profile.layout.pedal_analog_base + j] by {}
        lemma_pedals_rest(st, s, n - 1);
    } else {
        if at < ANALOGS {
            assert(s.analog@[at] == st.prev.analog@[at]);
        }
        lemma_one_pedal(st, s, k, n - 1);
    }
}

/// A pedal sends on its own controller: as a switch 127 from its threshold on and 0 below it, else
/// the share of 127 that its reading is of 4095.
pub proof fn law_a_pedal_sends_its_reading(x: Step, s: ControlState, k: int)
    requires
        field_changed(x.st, s, x.st.profile.layout.pedal_analog_base + k),
        x.st.cfg.pedal.enabled,
        x.st.cfg.pedal.channel >= 1,
        0 <= k < x.st.cfg.pedal.ccs@.len(),
        0 <= x.st.profile.layout.strip_field() < ANALOGS,
        x.st.profile.layout.strip_field() != x.st.profile.layout.pedal_analog_base + k,
    ensures
        ({
            let p = x.st.cfg.pedal;
            let y = controls(x, s);
            let reading = s.analog@[x.st.profile.layout.pedal_analog_base + k];
            &&& y.out.len() == x.out.len() + 1
            &&& y.out.drop_last() == x.out
            &&& y.out.last() matches Msg::Cc { ch, cc, val } && ch + 1 == p.channel && cc == p.ccs@[k]
                && if p.switch {
                if reading >= p.switch_threshold {
                    val == 127
                } else {
                    val == 0
                }
            } else {
                is_scaled(val, reading as int, 4095)
            }
            &&& y.leds == x.leds
            &&& y.st == EngineState { prev: s, ..x.st }
        }),
{
    lemma_buttons_rest(x, s, 0);
    lemma_knobs_rest(x, s, 0);
    let n = x.st.cfg.pedal.ccs@.len() as int;
    law_readings_are_scaled(s.analog@[x.st.profile.layout.pedal_analog_base + k], 4095);
    lemma_one_pedal(x.st, s, k, n);
    assert(s.analog@[x.st.profile.layout.strip_field()]
        == x.st.prev.analog@[x.st.profile.layout.strip_field()]);
    assert(slide(x, s) == x);
    lemma_pedals_rest(x.st, s, k);
    let y = controls(x, s);
    assert(y.out.drop_last() =~= x.out);
    assert(y.out.last() == pedals(x.st, s, k + 1)[0]);
}

// What the host sends.

/// A button that mirrors the host is on its address: the message says that it is on, or that it is
/// off.
pub open spec fn mirrors(b: CompiledButton, m: Msg, on: bool) -> bool {
    &&& b.led_mode is Midi
    &&& b.led >= 0
    &&& match (b.action, m) {
        (Action::Cc { ch, cc, .. }, Msg::Cc { ch: c, cc: n, val }) => ch == c && cc == n && on == (val
            > 0),
        (Action::Note { ch, note, .. }, Msg::NoteOn { ch: c, note: n, vel }) => ch == c && note == n
            && on == (vel > 0),
        (Action::Note { ch, note, .. }, Msg::NoteOff { ch: c, note: n, .. }) => ch == c && note == n
            && !on,
        _ => false,
    }
}

/// A note from the host is that of pad `pad`, and of none before it: the message says that it
/// sounds, or that it does not.
pub open spec fn plays(p: PadCfg, pad: int, m: Msg, on: bool) -> bool {
    &&& 0 <= pad < p.notes@.len()
    &&& match m {
        Msg::NoteOn { ch, note, vel } => ch + 1 == p.channel && p.notes@[pad] == note && on == (vel
            > 0) && forall|k: int| 0 <= k < pad ==> #[trigger] p.notes@[k] != note,
        Msg::NoteOff { ch, note, .. } => ch + 1 == p.channel && p.notes@[pad] == note && !on
            && forall|k: int| 0 <= k < pad ==> #[trigger] p.notes@[k] != note,
        _ => false,
    }
}

proof fn lemma_first_note_is(notes: Seq<u8>, num: u8, i: int, pad: int)
    requires
        0 <= i <= pad < notes.len(),
        notes[pad] == num,
        forall|k: int| i <= k < pad ==> #[trigger] notes[k] != num,
    ensures
        crate::engine::first_note(notes, num, i) == pad,
    decreases pad - i,
{
    if i < pad {
        assert(notes[i] != num);
        lemma_first_note_is(notes, num, i + 1, pad);
    }
}

proof fn lemma_first_note_found(notes: Seq<u8>, num: u8, i: int)
    requires
        0 <= i <= notes.len(),
    ensures
        ({
            let pad = crate::engine::first_note(notes, num, i);
            &&& i <= pad <= notes.len()
            &&& pad < notes.len() ==> notes[pad] == num
            &&& forall|k: int| i <= k < pad ==> #[trigger] notes[k] != num
        }),
    decreases notes.len() - i,
{
    if i < notes.len() && notes[i] != num {
        lemma_first_note_found(notes, num, i + 1);
    }
}

/// A button that mirrors the host shows what the host says of it, unless its slot is that of
/// another thing that the message is about.
pub proof fn law_a_mirroring_button_shows_the_host(x: Step, m: Msg, i: int, on: bool)
    requires
        x.leds.bytes.len() == LED_COUNT,
        x.st.cfg.leds.enabled,
        x.st.cfg.pads.channel >= 1,
        0 <= i < x.st.buttons.len(),
        mirrors(x.st.buttons[i], m, on),
        x.st.buttons[i].led < LED_COUNT,
        forall|j: int|
            0 <= j < x.st.buttons.len() && j != i ==> (#[trigger] x.st.buttons[j]).led
                != x.st.buttons[i].led,
        x.st.buttons[i].led < x.st.profile.layout.pad_led_base || x.st.buttons[i].led
            >= x.st.profile.layout.pad_led_base + x.st.cfg.pads.notes@.len(),
    ensures
        host(x, m).leds.bytes.len() == LED_COUNT,
        button_shows(
            x.st.cfg.leds,
            x.st.buttons[i],
            on,
            host(x, m).leds.bytes[x.st.buttons[i].led as int],
        ),
        host(x, m).out == x.out,
{
    let slot = x.st.buttons[i].led as int;
    law_the_host_lights_what_it_addresses(x, m, slot);
    lemma_button_shows(x.st.cfg.leds, x.st.buttons[i], on);
    let ev = crate::engine::host_event_of(m)->0;
    assert(crate::behaviour::reaches(x.st, ev, i));
    lemma_first_note_found(x.st.cfg.pads.notes@, ev.num, 0);
}

/// A note from the host lights its pad while it sounds and puts it back to idle when it ends.
pub proof fn law_a_note_from_the_host_lights_its_pad(x: Step, m: Msg, pad: int, on: bool)
    requires
        x.leds.bytes.len() == LED_COUNT,
        x.st.cfg.leds.enabled,
        plays(x.st.cfg.pads, pad, m, on),
        0 <= x.st.profile.layout.pad_led_base + pad < LED_COUNT,
    ensures
        pad_shows(
            x.st.cfg.pads,
            on,
            host(x, m).leds.bytes[x.st.profile.layout.pad_led_base + pad],
        ),
        host(x, m).out == x.out,
        host(x, m).st.pads == x.st.pads,
{
    let p = x.st.cfg.pads;
    let slot = x.st.profile.layout.pad_led_base + pad;
    law_the_host_lights_what_it_addresses(x, m, slot);
    let ev = crate::engine::host_event_of(m)->0;
    lemma_first_note_is(p.notes@, ev.num, 0, pad);
    lemma_is_colour(p.active_colour, Level::Bright);
    lemma_is_colour(p.idle_colour, crate::engine::level_of(p.idle_level));
}

/// A slot of nothing that a message is about stays as it is.
pub proof fn law_the_host_leaves_other_lights(x: Step, m: Msg, slot: int)
    requires
        x.leds.bytes.len() == LED_COUNT,
        x.st.cfg.pads.channel >= 1,
        0 <= slot < LED_COUNT,
        forall|i: int, on: bool|
            0 <= i < x.st.buttons.len() && #[trigger] mirrors(x.st.buttons[i], m, on)
                ==> x.st.buttons[i].led != slot,
        forall|pad: int, on: bool| #[trigger]
            plays(x.st.cfg.pads, pad, m, on) ==> x.st.profile.layout.pad_led_base + pad != slot,
    ensures
        host(x, m).leds.bytes.len() == LED_COUNT,
        host(x, m).leds.bytes[slot] == x.leds.bytes[slot],
{
    law_the_host_lights_what_it_addresses(x, m, slot);
    if let Some(ev) = crate::engine::host_event_of(m) {
        lemma_first_note_found(x.st.cfg.pads.notes@, ev.num, 0);
        let pad = crate::engine::first_note(x.st.cfg.pads.notes@, ev.num, 0);
        assert(crate::behaviour::reached_pad(x.st, ev) is Some ==> plays(
            x.st.cfg.pads,
            pad,
            m,
            ev.val > 0,
        ));
        assert forall|i: int|
            0 <= i < x.st.buttons.len() && #[trigger] crate::behaviour::reaches(
                x.st,
                ev,
                i,
            ) implies x.st.buttons[i].led != slot by {
            assert(mirrors(x.st.buttons[i], m, ev.val > 0));
        }
    }
}

/// A value from the host takes the knob on its address out of the player's hand, in pickup mode:
/// the knob then waits for that value. No other knob, and nothing but knobs, is changed by it.
pub proof fn law_the_host_takes_a_knob_over(x: Step, m: Msg, i: int)
    requires
        sized(x.st),
        x.st.cfg.knobs.channel >= 1,
        x.st.cfg.knobs.ccs@.len() == KNOBS,
        0 <= i < KNOBS,
    ensures
        ({
            let k = x.st.cfg.knobs;
            let now = host(x, m).st.knobs[i];
            match m {
                Msg::Cc { ch, cc, val } if k.mode is Absolute && k.pickup is Pickup && ch + 1
                    == k.channel && cc == k.ccs@[i] => now == KnobState {
                    last_sent: val,
                    seen: true,
                    engaged: false,
                    ..x.st.knobs[i]
                },
                _ => now == x.st.knobs[i],
            }
        }),
        host(x, m).st.knobs.len() == KNOBS,
        host(x, m).st == (EngineState { knobs: host(x, m).st.knobs, ..x.st }),
{
}

// Starting, loading and the idle picture.

/// A new engine holds nothing: no note sounds, no button is latched, no knob has a value, and the
/// first report is still to come.
pub proof fn law_a_new_engine_holds_nothing(
    profile: Profile,
    cfg: Config,
    prev: ControlState,
    i: int,
)
    ensures
        sized(fresh(profile, cfg, prev)),
        fresh(profile, cfg, prev).cfg == cfg,
        fresh(profile, cfg, prev).profile == profile,
        !fresh(profile, cfg, prev).have_prev,
        fresh(profile, cfg, prev).chan_pressure == 0,
        0 <= i < PADS ==> fresh(profile, cfg, prev).pads[i].sounding is None && fresh(
            profile,
            cfg,
            prev,
        ).pads[i].pressure == 0,
        0 <= i < BUTTON_BITS ==> !fresh(profile, cfg, prev).toggle[i],
        0 <= i < KNOBS ==> !fresh(profile, cfg, prev).knobs[i].seen && !fresh(
            profile,
            cfg,
            prev,
        ).knobs[i].engaged,
        0 <= i < KNOBS ==> fresh(profile, cfg, prev).outputs.knobs[i] == 0,
{
}

/// The first report only says where things stand: each knob where it is, the encoder at its initial
/// value, and accumulating knobs at theirs. It sends and lights nothing.
pub proof fn law_the_first_report_says_where_things_stand(x: Step, s: ControlState, i: int)
    requires
        sized(x.st),
        !x.st.have_prev,
        0 <= i < KNOBS,
    ensures
        ({
            let y = controls(x, s);
            &&& y.out == x.out
            &&& y.leds == x.leds
            &&& y.st.have_prev && y.st.prev == s
            &&& y.st.knobs[i] == KnobState { raw: (s.knobs@[i] % 1000) as u16, ..x.st.knobs[i] }
            &&& y.st.encoder_pos == x.st.cfg.encoder.initial
            &&& y.st.outputs.encoder == x.st.cfg.encoder.initial
            &&& y.st.outputs.strip == x.st.outputs.strip
            &&& x.st.cfg.knobs.mode is Accumulate ==> y.st.outputs.knobs[i]
                == x.st.cfg.knobs.initial
            &&& !(x.st.cfg.knobs.mode is Accumulate) ==> y.st.outputs.knobs[i]
                == x.st.outputs.knobs[i]
            &&& y.st.pads == x.st.pads && y.st.toggle == x.st.toggle
        }),
{
}

/// A loaded config starts over with the new config, but from where the knobs were last reported, so
/// that the next report is measured from there.
pub proof fn law_a_loaded_config_starts_over(st: EngineState, cfg: Config, i: int)
    requires
        0 <= i < KNOBS,
    ensures
        ({
            let y = reloaded(st, cfg);
            &&& sized(y)
            &&& y.cfg == cfg && y.profile == st.profile
            &&& y.prev == st.prev && y.have_prev == st.have_prev
            &&& st.have_prev ==> y.knobs[i].raw == st.prev.knobs@[i] % 1000
            &&& !y.knobs[i].seen && !y.knobs[i].engaged && y.knobs[i].accum == 0
            &&& y.chan_pressure == 0
        }),
        forall|k: int|
            0 <= k < PADS ==> (#[trigger] reloaded(st, cfg).pads[k]).sounding is None && reloaded(
                st,
                cfg,
            ).pads[k].pressure == 0,
        forall|k: int| 0 <= k < BUTTON_BITS ==> !#[trigger] reloaded(st, cfg).toggle[k],
{
}

proof fn lemma_idle_pads(st: EngineState, leds: crate::leds::Lamps, n: int, slot: int)
    requires
        leds.bytes.len() == LED_COUNT,
        0 <= n,
        0 <= slot < LED_COUNT,
    ensures
        ({
            let base = st.profile.layout.pad_led_base;
            let after = crate::engine::idle_pads(leds, st.cfg, st.profile.layout, n).bytes;
            &&& after.len() == LED_COUNT
            &&& base <= slot < base + n ==> pad_shows(st.cfg.pads, false, after[slot])
            &&& !(base <= slot < base + n) ==> after[slot] == leds.bytes[slot]
        }),
    decreases n,
{
    let p = st.cfg.pads;
    lemma_is_colour(p.idle_colour, crate::engine::level_of(p.idle_level));
    if n > 0 {
        lemma_idle_pads(st, leds, n - 1, slot);
    }
}

proof fn lemma_idle_buttons(
    leds: crate::leds::Lamps,
    cfg: LedCfg,
    v: Seq<CompiledButton>,
    n: int,
    slot: int,
)
    requires
        leds.bytes.len() == LED_COUNT,
        0 <= n <= v.len(),
        0 <= slot < LED_COUNT,
    ensures
        ({
            let after = crate::engine::idle_buttons(leds, cfg, v, n).bytes;
            &&& after.len() == LED_COUNT
            &&& (forall|i: int| 0 <= i < n ==> (#[trigger] v[i]).led != slot) ==> after[slot]
                == leds.bytes[slot]
        }),
    decreases n,
{
    if n > 0 {
        lemma_idle_buttons(leds, cfg, v, n - 1, slot);
    }
}

proof fn lemma_idle_button(
    leds: crate::leds::Lamps,
    cfg: LedCfg,
    v: Seq<CompiledButton>,
    n: int,
    slot: int,
    i: int,
)
    requires
        leds.bytes.len() == LED_COUNT,
        0 <= i < n <= v.len(),
        0 <= slot < LED_COUNT,
        v[i].led == slot,
        forall|j: int| i < j < n ==> (#[trigger] v[j]).led != slot,
    ensures
        button_shows(cfg, v[i], false, crate::engine::idle_buttons(leds, cfg, v, n).bytes[slot]),
    decreases n,
{
    lemma_idle_buttons(leds, cfg, v, n - 1, slot);
    lemma_button_shows(cfg, v[n - 1], false);
    if i < n - 1 {
        assert(v[n - 1].led != slot);
        lemma_idle_button(leds, cfg, v, n - 1, slot, i);
    }
}

/// The idle picture: every pad in its idle colour, every button's light as it is when the button is
/// off, the strip dark where it is lit at all, and nothing else touched. With lights switched off
/// all is dark.
pub proof fn law_the_idle_picture(st: EngineState, leds: crate::leds::Lamps, slot: int, i: int)
    requires
        leds.bytes.len() == LED_COUNT,
        0 <= slot < LED_COUNT,
        st.profile.layout.strip_max >= 1,
    ensures
        ({
            let l = st.profile.layout;
            let after = idle_picture(st, leds).bytes;
            let is_pad = l.pad_led_base <= slot < l.pad_led_base + PADS;
            let is_strip = l.strip_led_base <= slot < l.strip_led_base + l.strip_leds;
            let no_button = forall|j: int|
                0 <= j < st.buttons.len() ==> (#[trigger] st.buttons[j]).led != slot;
            &&& after.len() == LED_COUNT
            &&& !st.cfg.leds.enabled ==> after[slot] == 0
            &&& st.cfg.leds.enabled ==> {
                &&& 0 <= i < st.buttons.len() && st.buttons[i].led == slot && (forall|j: int|
                    i < j < st.buttons.len() ==> (#[trigger] st.buttons[j]).led != slot)
                    ==> button_shows(st.cfg.leds, st.buttons[i], false, after[slot])
                &&& no_button && is_strip && st.cfg.touchstrip.leds ==> after[slot] == 0
                &&& no_button && is_pad && !(is_strip && st.cfg.touchstrip.leds) ==> pad_shows(
                    st.cfg.pads,
                    false,
                    after[slot],
                )
                &&& no_button && !is_pad && !(is_strip && st.cfg.touchstrip.leds) ==> after[slot]
                    == leds.bytes[slot]
            }
        }),
{
    let l = st.profile.layout;
    if st.cfg.leds.enabled {
        let a = crate::engine::idle_pads(leds, st.cfg, l, PADS as int);
        let b = crate::engine::light_strip_of(a, st.cfg, l, 0);
        lemma_idle_pads(st, leds, PADS as int, slot);
        if st.cfg.touchstrip.leds {
            lemma_strip_shows(st, a, 0);
            let n = l.strip_leds as int;
            let k = if l.strip_led_reversed != st.cfg.touchstrip.led_reversed {
                l.strip_led_base + n - 1 - slot
            } else {
                slot - l.strip_led_base
            };
            if l.strip_led_base <= slot < l.strip_led_base + n {
                assert(k * l.strip_max >= 0) by (nonlinear_arith)
                    requires
                        k >= 0,
                        l.strip_max >= 0,
                ;
            }
        }
        assert(b.bytes.len() == LED_COUNT);
        let n = st.buttons.len() as int;
        lemma_idle_buttons(b, st.cfg.leds, st.buttons, n, slot);
        if 0 <= i < n && st.buttons[i].led == slot && (forall|j: int|
            i < j < n ==> (#[trigger] st.buttons[j]).led != slot) {
            lemma_idle_button(b, st.cfg.leds, st.buttons, n, slot, i);
        }
    }
}

// Reports of several kinds of change.

proof fn lemma_fire_same(x: Step, s: ControlState, t: ControlState, bit: int)
    requires
        s.buttons@ == t.buttons@,
    ensures
        fire_from(x, s, bit) == fire_from(x, t, bit),
    decreases BUTTON_BITS - bit,
{
    if bit < BUTTON_BITS {
        assert(s.held(bit) == t.held(bit));
        lemma_fire_same(x, s, t, bit + 1);
        lemma_fire_same(fire(x, bit, s.held(bit)), s, t, bit + 1);
    }
}

proof fn lemma_turn_same(x: Step, s: ControlState, t: ControlState, p: ControlState, i: int)
    requires
        0 <= i,
        s.knobs@ == t.knobs@,
    ensures
        ({
            let y = turn_from(x, s, i);
            turn_from(Step { st: EngineState { prev: p, ..x.st }, ..x }, t, i) == Step {
                st: EngineState { prev: p, ..y.st },
                ..y
            }
        }),
    decreases KNOBS - i,
{
    if i < KNOBS {
        lemma_turn_same(turn(x, s, i), s, t, p, i + 1);
    }
}

/// Only buttons changed since the last report.
proof fn lemma_only_buttons(x: Step, s: ControlState)
    requires
        x.st.have_prev,
        x.st.cfg.knobs.deadband > 0,
        settled(x.st, s),
        s.encoder_lo == x.st.prev.encoder_lo,
        analog_rests(x.st, s),
    ensures
        ({
            let y = fire_from(x, s, 0);
            controls(x, s) == Step { st: EngineState { prev: s, ..y.st }, ..y }
        }),
{
    let f = fire_from(x, s, 0);
    crate::behaviour::lemma_fire_from(x, s, 0);
    assert forall|i: int| 0 <= i < KNOBS implies #[trigger] knob_settled(f.st, s, i) by {
        assert(knob_settled(x.st, s, i));
    }
    lemma_turn_none(f, s, 0);
    assert(turn_encoder(f, s) == f);
    lemma_analog_rests(f, s);
}

/// Only knobs changed since the last report.
proof fn lemma_only_knobs(x: Step, s: ControlState)
    requires
        x.st.have_prev,
        x.st.knobs.len() == KNOBS,
        s.buttons@ == x.st.prev.buttons@,
        s.encoder_lo == x.st.prev.encoder_lo,
        analog_rests(x.st, s),
    ensures
        ({
            let y = turn_from(x, s, 0);
            controls(x, s) == Step { st: EngineState { prev: s, ..y.st }, ..y }
        }),
{
    assert forall|k: int| 0 <= k < BUTTON_BITS implies #[trigger] s.held(k) == x.st.prev.held(
        k,
    ) by {}
    lemma_buttons_rest(x, s, 0);
    let t = turn_from(x, s, 0);
    crate::behaviour::lemma_turn_from(x, s, 0);
    assert(turn_encoder(t, s) == t);
    lemma_analog_rests(t, s);
}

/// Only the encoder changed since the last report.
proof fn lemma_only_encoder(x: Step, s: ControlState)
    requires
        x.st.have_prev,
        x.st.cfg.knobs.deadband > 0,
        settled(x.st, s),
        s.buttons@ == x.st.prev.buttons@,
        analog_rests(x.st, s),
    ensures
        ({
            let y = turn_encoder(x, s);
            controls(x, s) == Step { st: EngineState { prev: s, ..y.st }, ..y }
        }),
{
    assert forall|k: int| 0 <= k < BUTTON_BITS implies #[trigger] s.held(k) == x.st.prev.held(
        k,
    ) by {}
    lemma_buttons_rest(x, s, 0);
    lemma_turn_none(x, s, 0);
    lemma_analog_rests(turn_encoder(x, s), s);
}

/// Only the strip and the pedals changed since the last report.
proof fn lemma_only_analog(x: Step, s: ControlState)
    requires
        x.st.have_prev,
        x.st.cfg.knobs.deadband > 0,
        settled(x.st, s),
        s.buttons@ == x.st.prev.buttons@,
        s.encoder_lo == x.st.prev.encoder_lo,
    ensures
        ({
            let y = analog(x, s);
            controls(x, s) == Step { st: EngineState { prev: s, ..y.st }, ..y }
        }),
{
    assert forall|k: int| 0 <= k < BUTTON_BITS implies #[trigger] s.held(k) == x.st.prev.held(
        k,
    ) by {}
    lemma_buttons_rest(x, s, 0);
    lemma_turn_none(x, s, 0);
}

proof fn lemma_settles(x: Step, s: ControlState, st: EngineState, t: ControlState)
    requires
        x.st.knobs.len() == KNOBS,
        st.knobs == turn_from(x, s, 0).st.knobs,
        st.cfg == x.st.cfg,
        t.knobs@ == s.knobs@,
    ensures
        settled(st, t),
{
    crate::behaviour::lemma_turn_from(x, s, 0);
    assert forall|i: int| 0 <= i < KNOBS implies #[trigger] knob_settled(st, t, i) by {
        assert(turn_from(x, s, 0).st.knobs[i] == crate::behaviour::knob_after(x, s, i));
    }
}

/// The same step, but for what the last report was.
pub open spec fn after_report(x: Step, p: ControlState) -> Step {
    Step { st: EngineState { prev: p, ..x.st }, ..x }
}

proof fn lemma_stage_buttons(x: Step, s: ControlState, a: ControlState)
    requires
        x.st.have_prev,
        x.st.knobs.len() == KNOBS,
        x.st.cfg.knobs.deadband > 0,
        settled(x.st, x.st.prev),
        a.buttons@ == s.buttons@,
        a.knobs@ == x.st.prev.knobs@,
        a.encoder_lo == x.st.prev.encoder_lo,
        a.analog@ == x.st.prev.analog@,
    ensures
        controls(x, a) == after_report(fire_from(x, s, 0), a),
{
    assert forall|i: int| 0 <= i < KNOBS implies #[trigger] knob_settled(x.st, a, i) by {
        assert(knob_settled(x.st, x.st.prev, i));
    }
    lemma_only_buttons(x, a);
    lemma_fire_same(x, s, a, 0);
}

proof fn lemma_stage_knobs(f: Step, s: ControlState, a: ControlState, b: ControlState)
    requires
        f.st.have_prev,
        f.st.knobs.len() == KNOBS,
        b.buttons@ == a.buttons@,
        b.knobs@ == s.knobs@,
        b.encoder_lo == a.encoder_lo,
        b.analog@ == a.analog@,
    ensures
        controls(after_report(f, a), b) == after_report(turn_from(f, s, 0), b),
{
    lemma_only_knobs(after_report(f, a), b);
    lemma_turn_same(f, s, b, a, 0);
}

proof fn lemma_stage_encoder(t: Step, s: ControlState, b: ControlState, c: ControlState)
    requires
        t.st.have_prev,
        t.st.cfg.knobs.deadband > 0,
        settled(t.st, c),
        c.buttons@ == b.buttons@,
        c.encoder_lo == s.encoder_lo,
        b.encoder_lo == t.st.prev.encoder_lo,
        c.analog@ == b.analog@,
    ensures
        controls(after_report(t, b), c) == after_report(turn_encoder(t, s), c),
{
    let x = after_report(t, b);
    assert forall|i: int| 0 <= i < KNOBS implies #[trigger] knob_settled(x.st, c, i) by {
        assert(knob_settled(t.st, c, i));
    }
    lemma_only_encoder(x, c);
}

proof fn lemma_stage_analog(e: Step, s: ControlState, c: ControlState)
    requires
        e.st.have_prev,
        e.st.cfg.knobs.deadband > 0,
        settled(e.st, s),
        c.buttons@ == s.buttons@,
        c.encoder_lo == s.encoder_lo,
        c.analog@ == e.st.prev.analog@,
    ensures
        controls(after_report(e, c), s) == after_report(analog(e, s), s),
{
    let x = after_report(e, c);
    assert forall|i: int| 0 <= i < KNOBS implies #[trigger] knob_settled(x.st, s, i) by {
        assert(knob_settled(e.st, s, i));
    }
    lemma_only_analog(x, s);
    lemma_analog_same(e, c, s);
}

/// What a report leaves as it is at each of its stages.
proof fn lemma_stages(x: Step, s: ControlState, c: ControlState)
    requires
        x.st.have_prev,
        x.st.knobs.len() == KNOBS,
        c.knobs@ == s.knobs@,
    ensures
        ({
            let f = fire_from(x, s, 0);
            let t = turn_from(f, s, 0);
            let e = turn_encoder(t, s);
            &&& f.st.have_prev && t.st.have_prev && e.st.have_prev
            &&& f.st.cfg == x.st.cfg && t.st.cfg == x.st.cfg && e.st.cfg == x.st.cfg
            &&& f.st.prev == x.st.prev && t.st.prev == x.st.prev && e.st.prev == x.st.prev
            &&& f.st.knobs.len() == KNOBS
            &&& settled(t.st, c)
            &&& settled(e.st, s)
            &&& controls(x, s) == after_report(analog(e, s), s)
        }),
{
    let f = fire_from(x, s, 0);
    let t = turn_from(f, s, 0);
    let e = turn_encoder(t, s);
    crate::behaviour::lemma_fire_from(x, s, 0);
    crate::behaviour::lemma_turn_from(f, s, 0);
    lemma_settles(f, s, t.st, c);
    lemma_settles(f, s, e.st, s);
}

/// A report in which several kinds of things changed does what reports of each of them do one after
/// the other: the buttons first, then the knobs, the encoder, and the strip and the pedals.
pub proof fn law_kinds_are_taken_in_order(
    x: Step,
    s: ControlState,
    a: ControlState,
    b: ControlState,
    c: ControlState,
)
    requires
        x.st.have_prev,
        x.st.knobs.len() == KNOBS,
        x.st.cfg.knobs.deadband > 0,
        settled(x.st, x.st.prev),
        a.buttons@ == s.buttons@ && b.buttons@ == s.buttons@ && c.buttons@ == s.buttons@,
        a.knobs@ == x.st.prev.knobs@ && b.knobs@ == s.knobs@ && c.knobs@ == s.knobs@,
        a.encoder_lo == x.st.prev.encoder_lo && b.encoder_lo == x.st.prev.encoder_lo
            && c.encoder_lo == s.encoder_lo,
        a.analog@ == x.st.prev.analog@ && b.analog@ == x.st.prev.analog@ && c.analog@
            == x.st.prev.analog@,
    ensures
        controls(controls(controls(controls(x, a), b), c), s) == controls(x, s),
{
    let f = fire_from(x, s, 0);
    let t = turn_from(f, s, 0);
    let e = turn_encoder(t, s);
    lemma_stages(x, s, c);
    lemma_stage_buttons(x, s, a);
    lemma_stage_knobs(f, s, a, b);
    lemma_stage_encoder(t, s, b, c);
    lemma_stage_analog(e, s, c);
    assert(controls(x, a) == after_report(f, a));
}

proof fn lemma_analog_same(x: Step, c: ControlState, s: ControlState)
    requires
        x.st.prev.analog@ == c.analog@,
    ensures
        ({
            let y = analog(x, s);
            analog(Step { st: EngineState { prev: c, ..x.st }, ..x }, s) == Step {
                st: EngineState { prev: c, ..y.st },
                ..y
            }
        }),
{
    let y = slide(x, s);
    lemma_pedals_same(y.st, c, s, y.st.cfg.pedal.ccs@.len() as int);
}

proof fn lemma_pedals_same(st: EngineState, c: ControlState, s: ControlState, n: int)
    requires
        st.prev.analog@ == c.analog@,
    ensures
        pedals(EngineState { prev: c, ..st }, s, n) == pedals(st, s, n),
    decreases n,
{
    if n > 0 {
        lemma_pedals_same(st, c, s, n - 1);
    }
}

} // verus!
