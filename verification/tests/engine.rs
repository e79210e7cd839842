use maschine_mk3::config::{
    Aftertouch, Binding, ButtonCfg, ButtonMode, Config, KnobMode, LedMode, PadCfg, Pickup,
};
use maschine_mk3::engine::Engine;
use maschine_mk3::hid::{ControlState, PadEvent, PadHit};
use maschine_mk3::leds::{colour, Leds, Level};
use maschine_mk3::midi::Msg;
use maschine_mk3::namemap::NameMap;
use maschine_mk3::profile::{Control, ControlKind, DeviceInfo, Layout, Profile, Reports};

fn control(kind: ControlKind, index: usize, bit: Option<usize>, led: Option<usize>) -> Control {
    Control {
        kind,
        label: String::new(),
        index,
        bit,
        led,
        led_colour: None,
        group: None,
        x: None,
        y: None,
        w: None,
        h: None,
    }
}

/// The controls that the engine's behaviour is checked on.
fn mk3() -> Profile {
    let mut control_map: NameMap<Control> = NameMap::new();
    let buttons = [
        ("play", 45, Some(41), Some(17)),
        ("rec", 46, Some(42), None),
        ("stop", 47, Some(43), None),
        ("mute", 37, Some(36), None),
        ("sampling", 51, Some(5), Some(11)),
        ("mixer", 52, Some(3), None),
        ("encoder_touch", 71, None, None),
        ("knob_1_touch", 79, None, None),
    ];
    for (name, bit, led, palette) in buttons {
        let mut c = control(ControlKind::Button, 0, Some(bit), led);
        c.led_colour = palette;
        control_map.insert(name.to_string(), c);
    }
    for i in 0..16 {
        control_map.insert(format!("pad_{i}"), control(ControlKind::Pad, i, None, None));
    }
    Profile {
        device: DeviceInfo { name: "Maschine MK3".to_string(), vendor: 0x17cc, product: 0x1600 },
        report: Reports { controls: 0x01, pads: 0x02, led_banks: vec![(0x80, 62), (0x81, 41)] },
        layout: Layout {
            buttons_offset: 0,
            button_bits: 80,
            encoder_offset: 10,
            knobs_offset: 11,
            knobs: 8,
            knob_max: 999,
            analog_offset: 27,
            analog_count: 7,
            pads: 16,
            pad_max: 4095,
            pad_led_base: 87,
            strip_led_base: 62,
            strip_leds: 25,
            strip_led_reversed: false,
            strip_analog: 1,
            strip_max: 1024,
            pedal_analog_base: 4,
            panel_width: 32f32.to_bits(),
            panel_height: 30f32.to_bits(),
        },
        control: control_map,
    }
}

fn engine_with(cfg: Config) -> (Engine, Leds) {
    (Engine::new(mk3(), cfg), Leds::new())
}

fn bind(cfg: &mut Config, name: &str, send: &str, mode: ButtonMode) {
    bind_led(cfg, name, send, mode, LedMode::Follow);
}

fn bind_led(cfg: &mut Config, name: &str, send: &str, mode: ButtonMode, led: LedMode) {
    cfg.buttons.insert(
        name.to_string(),
        Binding::Full(ButtonCfg { send: send.to_string(), mode, led }),
    );
}

fn bit_of(name: &str) -> usize {
    mk3().get(name).unwrap().bit.unwrap()
}

fn collect(e: &mut Engine, s: &ControlState, leds: &mut Leds) -> Vec<Msg> {
    let mut v = Vec::new();
    e.on_controls(s, leds, &mut v);
    v
}

fn pressed(name: &str) -> ControlState {
    let bit = bit_of(name);
    let mut s = ControlState::default();
    s.buttons[bit / 8] = 1 << (bit % 8);
    s
}

#[test]
fn first_report_is_a_baseline_and_emits_nothing() {
    let mut cfg = Config::default();
    bind(&mut cfg, "play", "cc 1 118", ButtonMode::Momentary);
    let (mut e, mut leds) = engine_with(cfg);
    let mut s = ControlState::default();
    s.buttons[bit_of("play") / 8] = 1 << (bit_of("play") % 8); // held at startup
    assert!(collect(&mut e, &s, &mut leds).is_empty());
}

#[test]
fn momentary_button_sends_on_then_off() {
    let mut cfg = Config::default();
    bind(&mut cfg, "play", "cc 1 118", ButtonMode::Momentary);
    let (mut e, mut leds) = engine_with(cfg);
    let base = ControlState::default();
    collect(&mut e, &base, &mut leds);

    let bit = bit_of("play");
    let mut down = base;
    down.buttons[bit / 8] = 1 << (bit % 8);
    assert_eq!(
        collect(&mut e, &down, &mut leds),
        vec![Msg::Cc { ch: 0, cc: 118, val: 127 }]
    );
    assert_eq!(
        collect(&mut e, &base, &mut leds),
        vec![Msg::Cc { ch: 0, cc: 118, val: 0 }]
    );
}

#[test]
fn colour_button_leds_do_not_use_the_brightness_ramp() {
    let mut cfg = Config::default();
    cfg.leds.button_idle = 10;
    bind(&mut cfg, "sampling", "none", ButtonMode::Momentary);
    bind(&mut cfg, "mixer", "none", ButtonMode::Momentary);
    let profile = mk3();
    let sampling = profile.get("sampling").unwrap();
    let mixer = profile.get("mixer").unwrap();
    let (sampling_led, palette) = (sampling.led.unwrap(), sampling.led_colour.unwrap());
    let mixer_led = mixer.led.unwrap();
    assert!(mixer.led_colour.is_none());

    let (e, mut leds) = engine_with(cfg);
    e.paint_idle(&mut leds);
    assert_eq!(
        leds.get(sampling_led),
        colour(palette, Level::Dim),
        "a colour LED idles at its palette entry, dimmed"
    );
    assert_eq!(leds.get(mixer_led), 10, "a monochrome one still takes plain brightness");
}

#[test]
fn colour_button_led_brightens_on_press() {
    let mut cfg = Config::default();
    bind(&mut cfg, "sampling", "none", ButtonMode::Momentary);
    let profile = mk3();
    let c = profile.get("sampling").unwrap();
    let (bit, slot, palette) = (c.bit.unwrap(), c.led.unwrap(), c.led_colour.unwrap());

    let (mut e, mut leds) = engine_with(cfg);
    let base = ControlState::default();
    collect(&mut e, &base, &mut leds);
    let mut down = base;
    down.buttons[bit / 8] = 1 << (bit % 8);
    collect(&mut e, &down, &mut leds);
    assert_eq!(leds.get(slot), colour(palette, Level::Bright));
}

#[test]
fn toggle_button_ignores_release() {
    let mut cfg = Config::default();
    bind(&mut cfg, "mute", "cc 1 20", ButtonMode::Toggle);
    let (mut e, mut leds) = engine_with(cfg);
    let base = ControlState::default();
    collect(&mut e, &base, &mut leds);
    let bit = bit_of("mute");
    let mut down = base;
    down.buttons[bit / 8] = 1 << (bit % 8);

    assert_eq!(collect(&mut e, &down, &mut leds), vec![Msg::Cc { ch: 0, cc: 20, val: 127 }]);
    assert!(collect(&mut e, &base, &mut leds).is_empty());
    assert_eq!(collect(&mut e, &down, &mut leds), vec![Msg::Cc { ch: 0, cc: 20, val: 0 }]);
}

#[test]
fn trigger_button_sends_on_press_only() {
    let mut cfg = Config::default();
    bind(&mut cfg, "stop", "note 3 60", ButtonMode::Trigger);
    let (mut e, mut leds) = engine_with(cfg);
    let base = ControlState::default();
    collect(&mut e, &base, &mut leds);
    assert_eq!(
        collect(&mut e, &pressed("stop"), &mut leds),
        vec![Msg::NoteOn { ch: 2, note: 60, vel: 127 }]
    );
    assert!(collect(&mut e, &base, &mut leds).is_empty());
}

#[test]
fn pad_retrigger_closes_the_previous_note() {
    let cfg = Config { pads: PadCfg { threshold: 0, ..Default::default() }, ..Default::default() };
    let (mut e, mut leds) = engine_with(cfg);
    let mut msgs = Vec::new();
    let hit = PadHit { pad: 0, event: PadEvent::NoteOn, value: 4095 };
    e.on_pads(&[hit], &mut leds, &mut msgs);
    e.on_pads(&[hit], &mut leds, &mut msgs);
    // HID pad 0 is the top-left pad, which the default map puts at 48.
    assert_eq!(
        msgs,
        vec![
            Msg::NoteOn { ch: 9, note: 48, vel: 127 },
            Msg::NoteOff { ch: 9, note: 48, vel: 0 },
            Msg::NoteOn { ch: 9, note: 48, vel: 127 },
        ]
    );
}

#[test]
fn note_off_uses_the_note_that_was_sounding_after_a_remap() {
    let (mut e, mut leds) = engine_with(Config::default());
    let mut msgs = Vec::new();
    e.on_pads(
        &[PadHit { pad: 0, event: PadEvent::NoteOn, value: 2000 }],
        &mut leds,
        &mut msgs,
    );
    let mut cfg = Config::default();
    cfg.pads.notes[0] = 99;
    e.reload(cfg);
    msgs.clear();
    e.on_pads(
        &[PadHit { pad: 0, event: PadEvent::NoteOff, value: 0 }],
        &mut leds,
        &mut msgs,
    );
    // A reload resets pad bookkeeping, so nothing is claimed to be sounding.
    assert!(msgs.is_empty(), "must not invent a note off for a note it never sent");
}

#[test]
fn pads_below_threshold_are_dropped() {
    let cfg = Config { pads: PadCfg { threshold: 500, ..Default::default() }, ..Default::default() };
    let (mut e, mut leds) = engine_with(cfg);
    let mut msgs = Vec::new();
    e.on_pads(
        &[PadHit { pad: 2, event: PadEvent::NoteOn, value: 400 }],
        &mut leds,
        &mut msgs,
    );
    assert!(msgs.is_empty());
}

#[test]
fn strip_meter_fills_from_the_far_end_and_clears_at_rest() {
    let mut cfg = Config::default();
    cfg.touchstrip.led_reversed = true;
    cfg.touchstrip.led_value = 0x1f;
    let layout = mk3().layout;
    let (base, n) = (layout.strip_led_base, layout.strip_leds);
    let (mut e, mut leds) = engine_with(cfg);

    let src = mk3().layout.strip_analog;
    let mut s = ControlState::default();
    collect(&mut e, &s, &mut leds);

    // Any contact at all must light at least one segment.
    s.analog[src] = 1;
    collect(&mut e, &s, &mut leds);
    assert_eq!(leds.get(base + n - 1), 0x1f, "reversed: first segment is the last slot");
    assert_eq!(leds.get(base), 0);

    s.analog[src] = mk3().layout.strip_max;
    collect(&mut e, &s, &mut leds);
    assert!((base..base + n).all(|i| leds.get(i) == 0x1f), "full deflection lights the strip");

    s.analog[src] = 0;
    collect(&mut e, &s, &mut leds);
    assert!((base..base + n).all(|i| leds.get(i) == 0), "no finger leaves the strip dark");
}

#[test]
fn pad_leds_land_on_the_pad_block_not_the_buttons() {
    let cfg = Config::default();
    let layout = mk3().layout;
    assert_eq!(layout.pad_led_base, 87);
    let (strip, strip_n) = (layout.strip_led_base, layout.strip_leds);
    let (mut e, mut leds) = engine_with(cfg);
    let mut msgs = Vec::new();
    e.on_pads(
        &[PadHit { pad: 0, event: PadEvent::NoteOn, value: 4095 }],
        &mut leds,
        &mut msgs,
    );
    assert_ne!(leds.get(layout.pad_led_base), 0, "pad 0 lights its own slot");
    assert_eq!(leds.get(0), 0, "and must not touch the button slots");
    assert!(
        (strip..strip + strip_n).all(|i| leds.get(i) == 0),
        "nor bleed onto the touch strip"
    );
}

#[test]
fn overlapping_pad_and_strip_leds_are_rejected() {
    let mut p = mk3();
    p.layout.strip_leds = 40; // 62..102 runs into the pad block at 87
    assert!(p.validate().is_err());
}

#[test]
fn strip_reaches_full_range_at_its_own_scale() {
    // The strip tops out at 1024, not the pads' 4095. Scaling against the
    // wrong full-scale value would cap the CC at about 31.
    let (mut e, mut leds) = engine_with(Config::default());
    let src = mk3().layout.strip_analog;
    let mut s = ControlState::default();
    collect(&mut e, &s, &mut leds);
    s.analog[src] = mk3().layout.strip_max;
    let msgs = collect(&mut e, &s, &mut leds);
    assert!(
        msgs.contains(&Msg::Cc { ch: 0, cc: 1, val: 127 }),
        "full deflection must reach 127, got {msgs:?}"
    );
}

#[test]
fn free_running_counter_is_not_an_allowed_strip_source() {
    let p = mk3();
    assert_ne!(
        p.layout.strip_analog, 0,
        "field 0 climbs forever; using it would emit a CC on every report"
    );
    // The counter moves on every report and nothing may be sent for it.
    let (mut e, mut leds) = engine_with(Config::default());
    let mut s = ControlState::default();
    collect(&mut e, &s, &mut leds);
    s.analog[0] = 16;
    assert!(collect(&mut e, &s, &mut leds).is_empty());
}

#[test]
fn aftertouch_is_withheld_until_the_pad_is_sounding() {
    let (mut e, mut leds) = engine_with(Config::default());
    let mut msgs = Vec::new();
    // The device really does send pressure before the note on.
    e.on_pads(
        &[PadHit { pad: 7, event: PadEvent::Aftertouch, value: 900 }],
        &mut leds,
        &mut msgs,
    );
    assert!(msgs.is_empty(), "no key pressure for a note the host never got");

    e.on_pads(
        &[
            PadHit { pad: 7, event: PadEvent::NoteOn, value: 1500 },
            PadHit { pad: 7, event: PadEvent::Aftertouch, value: 900 },
        ],
        &mut leds,
        &mut msgs,
    );
    assert!(
        msgs.iter().any(|m| matches!(m, Msg::PolyAftertouch { .. })),
        "but it flows once the note is sounding: {msgs:?}"
    );
}

#[test]
fn knob_deadband_suppresses_jitter() {
    let mut cfg = Config::default();
    cfg.knobs.deadband = 5;
    let (mut e, mut leds) = engine_with(cfg);
    let mut s = ControlState::default();
    s.knobs[0] = 500;
    collect(&mut e, &s, &mut leds);
    s.knobs[0] = 502;
    assert!(collect(&mut e, &s, &mut leds).is_empty());
    s.knobs[0] = 520;
    assert!(!collect(&mut e, &s, &mut leds).is_empty());
}

#[test]
fn knobs_clamp_at_the_ends_instead_of_wrapping() {
    // The knobs are endless encoders reporting 0..999. Turning up past the
    // top must stay at 127, not roll over to 0.
    let (mut e, mut leds) = engine_with(Config::default());
    let mut s = ControlState::default();
    s.knobs[0] = 500;
    collect(&mut e, &s, &mut leds);

    let mut last = 0u8;
    // Two full turns' worth of upward motion, crossing the 999/0 seam.
    for step in 1..=40 {
        s.knobs[0] = (500 + step * 50) % 1000;
        for m in collect(&mut e, &s, &mut leds) {
            if let Msg::Cc { val, .. } = m {
                assert!(val >= last, "value went backwards across the seam: {last} -> {val}");
                last = val;
            }
        }
    }
    assert_eq!(last, 127, "should have pinned at the top");

    // And it comes straight back down, rather than needing to unwind the
    // travel that was clamped away.
    s.knobs[0] = (s.knobs[0] + 1000 - 50) % 1000;
    let msgs = collect(&mut e, &s, &mut leds);
    match msgs.first() {
        Some(Msg::Cc { val, .. }) => assert!(*val < 127 && *val > 100, "got {val}"),
        other => panic!("expected an immediate decrease, got {other:?}"),
    }
}

#[test]
fn knob_starts_from_its_configured_position() {
    let (mut e, mut leds) = engine_with(Config::default());
    let mut s = ControlState::default();
    s.knobs[0] = 900;
    collect(&mut e, &s, &mut leds);
    s.knobs[0] = 950;
    let msgs = collect(&mut e, &s, &mut leds);
    match msgs.first() {
        // 64 is the configured start; +50 raw of 1000 travel is +6.
        Some(Msg::Cc { val, .. }) => assert_eq!(*val, 70),
        other => panic!("expected a step up from centre, got {other:?}"),
    }
}

#[test]
fn encoder_clamps_and_is_silent_at_the_ends() {
    let mut cfg = Config::default();
    cfg.encoder.step = 2;
    let (mut e, mut leds) = engine_with(cfg);
    let mut s = ControlState::default();
    collect(&mut e, &s, &mut leds);

    let mut last = 64;
    for i in 1..200 {
        s.encoder_lo = (i % 16) as u8;
        for m in collect(&mut e, &s, &mut leds) {
            if let Msg::Cc { val, .. } = m {
                last = val;
            }
        }
    }
    assert_eq!(last, 127, "turning up reaches the top");

    // Once pinned, more turning in the same direction says nothing.
    let before = s.encoder_lo;
    s.encoder_lo = (before + 1) % 16;
    assert!(
        collect(&mut e, &s, &mut leds).is_empty(),
        "a pinned encoder must not keep resending 127"
    );
}

#[test]
fn toggle_button_led_shows_the_latched_state() {
    let mut cfg = Config::default();
    cfg.leds.button_idle = 5;
    cfg.leds.button_active = 120;
    bind(&mut cfg, "mute", "cc 16 37", ButtonMode::Toggle);
    let profile = mk3();
    let c = profile.get("mute").unwrap();
    let (bit, slot) = (c.bit.unwrap(), c.led.unwrap());
    assert!(c.led_colour.is_none(), "mute is monochrome");

    let (mut e, mut leds) = engine_with(cfg);
    let base = ControlState::default();
    collect(&mut e, &base, &mut leds);
    let mut down = base;
    down.buttons[bit / 8] = 1 << (bit % 8);

    collect(&mut e, &down, &mut leds);
    assert_eq!(leds.get(slot), 120, "latched on");
    collect(&mut e, &base, &mut leds);
    assert_eq!(leds.get(slot), 120, "and stays lit through the release");
    collect(&mut e, &down, &mut leds);
    assert_eq!(leds.get(slot), 5, "second press latches off");
}

#[test]
fn encoder_wrap_reads_as_one_step() {
    let mut cfg = Config::default();
    cfg.encoder.mode = KnobMode::Relative;
    cfg.encoder.step = 1;
    let (mut e, mut leds) = engine_with(cfg);
    let mut s = ControlState::default();
    s.encoder_lo = 15;
    collect(&mut e, &s, &mut leds);
    s.encoder_lo = 0;
    assert_eq!(
        collect(&mut e, &s, &mut leds),
        vec![Msg::Cc { ch: 0, cc: 24, val: 1 }]
    );
}

#[test]
fn a_repeated_report_says_nothing() {
    let mut cfg = Config::default();
    bind(&mut cfg, "play", "cc 1 118", ButtonMode::Momentary);
    let (mut e, mut leds) = engine_with(cfg);
    collect(&mut e, &ControlState::default(), &mut leds);
    let mut s = pressed("play");
    s.knobs[3] = 321;
    s.encoder_lo = 4;
    s.analog[1] = 77;
    assert!(!collect(&mut e, &s, &mut leds).is_empty());
    assert!(collect(&mut e, &s, &mut leds).is_empty());
}

#[test]
fn high_resolution_knobs_send_both_halves() {
    let mut cfg = Config::default();
    cfg.knobs.high_resolution = true;
    let (mut e, mut leds) = engine_with(cfg);
    let mut s = ControlState::default();
    collect(&mut e, &s, &mut leds);
    s.knobs[1] = 100;
    // 64/127 of 1000 is 503; 603 of 1000 is 9878 of 16383.
    assert_eq!(
        collect(&mut e, &s, &mut leds),
        vec![
            Msg::Cc { ch: 0, cc: 17, val: 77 },
            Msg::Cc { ch: 0, cc: 49, val: 22 },
        ]
    );
    assert_eq!(e.outputs().knobs[1], 77, "what the controller itself was sent");

    let mut cfg = Config::default();
    cfg.knobs.high_resolution = true;
    cfg.knobs.mode = KnobMode::Absolute;
    let (mut e, mut leds) = engine_with(cfg);
    let mut s = ControlState::default();
    collect(&mut e, &s, &mut leds);
    s.knobs[1] = 500;
    assert_eq!(collect(&mut e, &s, &mut leds)[0], Msg::Cc { ch: 0, cc: 17, val: 64 });
    assert_eq!(e.outputs().knobs[1], 64);
}

#[test]
fn relative_knobs_send_steps() {
    let mut cfg = Config::default();
    cfg.knobs.mode = KnobMode::Relative;
    let (mut e, mut leds) = engine_with(cfg);
    let mut s = ControlState::default();
    s.knobs[7] = 5;
    collect(&mut e, &s, &mut leds);
    s.knobs[7] = 990; // fifteen down, across the seam
    assert_eq!(collect(&mut e, &s, &mut leds), vec![Msg::Cc { ch: 0, cc: 23, val: 126 }]);
    assert_eq!(e.outputs().knobs[7], 126);
    s.knobs[0] = 8;
    assert_eq!(collect(&mut e, &s, &mut leds), vec![Msg::Cc { ch: 0, cc: 16, val: 1 }]);
    assert_eq!((e.outputs().knobs[0], e.outputs().knobs[7]), (1, 126));
}

#[test]
fn outputs_show_what_was_sent() {
    let mut cfg = Config::default();
    cfg.encoder.mode = KnobMode::Relative;
    cfg.touchstrip.enabled = false;
    let (mut e, mut leds) = engine_with(cfg.clone());
    let mut s = ControlState::default();
    collect(&mut e, &s, &mut leds);
    s.encoder_lo = 1;
    s.analog[1] = 1024;
    assert_eq!(collect(&mut e, &s, &mut leds), vec![Msg::Cc { ch: 0, cc: 24, val: 2 }]);
    assert_eq!(e.outputs().encoder, 2);
    assert_eq!(e.outputs().strip, 0, "a strip that sends nothing shows nothing");
    cfg.touchstrip.enabled = true;
    e.reload(cfg);
    s.analog[1] = 512;
    collect(&mut e, &s, &mut leds);
    assert_eq!(e.outputs().strip, 63);
}

#[test]
fn always_lit_means_the_idle_brightness() {
    let mut cfg = Config::default();
    bind_led(&mut cfg, "mixer", "none", ButtonMode::Momentary, LedMode::Always);
    bind_led(&mut cfg, "play", "none", ButtonMode::Momentary, LedMode::Always);
    let (e, mut leds) = engine_with(cfg);
    e.paint_idle(&mut leds);
    assert_eq!(leds.get(3), 10);
    assert_eq!(leds.get(41), colour(17, Level::Dim));
}

#[test]
fn a_reload_does_not_move_knobs() {
    let (mut e, mut leds) = engine_with(Config::default());
    let mut s = ControlState::default();
    s.knobs[0] = 900;
    collect(&mut e, &s, &mut leds);
    e.reload(Config::default());
    assert!(collect(&mut e, &s, &mut leds).is_empty());
    s.knobs[0] = 910;
    // 64/127 of 1000 is 503, and ten more.
    assert_eq!(collect(&mut e, &s, &mut leds), vec![Msg::Cc { ch: 0, cc: 16, val: 65 }]);
}

#[test]
fn pad_notes_alternate() {
    let (mut e, mut leds) = engine_with(Config::default());
    let events = [
        PadEvent::NoteOn,
        PadEvent::Aftertouch,
        PadEvent::NoteOn,
        PadEvent::PressOff,
        PadEvent::NoteOff,
        PadEvent::Aftertouch,
        PadEvent::PressOn,
        PadEvent::NoteOn,
    ];
    let mut sent = Vec::new();
    for round in 0..40usize {
        let hits: Vec<PadHit> = (0..5usize)
            .map(|i| PadHit {
                pad: ((round * 3 + i) % 16) as u8,
                event: events[(round + i * i) % events.len()],
                value: 300 + 90 * i as u16,
            })
            .collect();
        e.on_pads(&hits, &mut leds, &mut sent);
    }
    let mut open = [false; 128];
    for m in sent {
        match m {
            Msg::NoteOn { ch, note, vel } => {
                assert!(ch == 9 && (1..=127).contains(&vel) && !open[note as usize]);
                open[note as usize] = true;
            }
            Msg::NoteOff { ch, note, .. } => {
                assert!(ch == 9 && open[note as usize]);
                open[note as usize] = false;
            }
            Msg::PolyAftertouch { note, val, .. } => assert!(val == 0 || open[note as usize]),
            _ => {}
        }
    }
}

#[test]
fn absolute_knobs_jump_unless_they_have_to_pick_up() {
    let mut cfg = Config::default();
    cfg.knobs.mode = KnobMode::Absolute;
    let (mut e, mut leds) = engine_with(cfg);
    let mut s = ControlState::default();
    collect(&mut e, &s, &mut leds);
    s.knobs[0] = 999;
    // One step back across the seam is within the deadband.
    assert!(collect(&mut e, &s, &mut leds).is_empty());
    s.knobs[0] = 500;
    assert_eq!(collect(&mut e, &s, &mut leds), vec![Msg::Cc { ch: 0, cc: 16, val: 63 }]);
    // The host's value does not matter without pickup.
    e.on_host_midi(Msg::Cc { ch: 0, cc: 16, val: 5 }, &mut leds);
    s.knobs[0] = 600;
    assert_eq!(collect(&mut e, &s, &mut leds), vec![Msg::Cc { ch: 0, cc: 16, val: 76 }]);
}

#[test]
fn pickup_is_silent_until_the_knob_passes_the_hosts_value() {
    let mut cfg = Config::default();
    cfg.knobs.mode = KnobMode::Absolute;
    cfg.knobs.pickup = Pickup::Pickup;
    let (mut e, mut leds) = engine_with(cfg);
    let mut s = ControlState::default();
    collect(&mut e, &s, &mut leds);
    e.on_host_midi(Msg::Cc { ch: 0, cc: 16, val: 100 }, &mut leds);
    s.knobs[0] = 300;
    assert!(collect(&mut e, &s, &mut leds).is_empty(), "still below 100");
    s.knobs[0] = 600;
    assert!(collect(&mut e, &s, &mut leds).is_empty(), "still below 100");
    s.knobs[0] = 900;
    assert_eq!(collect(&mut e, &s, &mut leds), vec![Msg::Cc { ch: 0, cc: 16, val: 114 }]);
    s.knobs[0] = 850;
    assert_eq!(collect(&mut e, &s, &mut leds), vec![Msg::Cc { ch: 0, cc: 16, val: 108 }]);
}

#[test]
fn pickup_across_the_seam_passes_only_the_ends() {
    let mut cfg = Config::default();
    cfg.knobs.mode = KnobMode::Absolute;
    cfg.knobs.pickup = Pickup::Pickup;
    let (mut e, mut leds) = engine_with(cfg);
    let mut s = ControlState::default();
    s.knobs[0] = 990;
    collect(&mut e, &s, &mut leds);
    e.on_host_midi(Msg::Cc { ch: 0, cc: 16, val: 64 }, &mut leds);
    s.knobs[0] = 20;
    assert!(collect(&mut e, &s, &mut leds).is_empty(), "64 is not on the way from 125 to 2");
    s.knobs[0] = 990;
    assert!(collect(&mut e, &s, &mut leds).is_empty(), "nor on the way back");
    e.on_host_midi(Msg::Cc { ch: 0, cc: 16, val: 127 }, &mut leds);
    s.knobs[0] = 30;
    assert_eq!(collect(&mut e, &s, &mut leds), vec![Msg::Cc { ch: 0, cc: 16, val: 3 }]);
}

#[test]
fn pedals_send_as_switches_or_scaled() {
    let mut cfg = Config::default();
    cfg.pedal.enabled = true;
    let (mut e, mut leds) = engine_with(cfg.clone());
    let mut s = ControlState::default();
    collect(&mut e, &s, &mut leds);
    s.analog[4] = 2047;
    s.analog[5] = 2048;
    assert_eq!(
        collect(&mut e, &s, &mut leds),
        vec![Msg::Cc { ch: 0, cc: 64, val: 0 }, Msg::Cc { ch: 0, cc: 67, val: 127 }]
    );

    cfg.pedal.switch = false;
    e.reload(cfg);
    s.analog[4] = 4095;
    s.analog[5] = 2048;
    assert_eq!(collect(&mut e, &s, &mut leds), vec![Msg::Cc { ch: 0, cc: 64, val: 127 }]);
}

#[test]
fn channel_aftertouch_follows_the_hardest_pressed_pad() {
    let mut cfg = Config::default();
    cfg.pads.aftertouch = Aftertouch::Channel;
    let (mut e, mut leds) = engine_with(cfg);
    let mut msgs = Vec::new();
    let on = |pad| PadHit { pad, event: PadEvent::NoteOn, value: 1000 };
    let press = |pad, value| PadHit { pad, event: PadEvent::Aftertouch, value };
    e.on_pads(&[on(1), on(2), press(1, 4095), press(2, 700)], &mut leds, &mut msgs);
    assert_eq!(msgs.last(), Some(&Msg::ChannelAftertouch { ch: 9, val: 127 }));
    msgs.clear();
    e.on_pads(
        &[PadHit { pad: 1, event: PadEvent::NoteOff, value: 0 }],
        &mut leds,
        &mut msgs,
    );
    assert_eq!(
        msgs,
        vec![
            Msg::NoteOff { ch: 9, note: 49, vel: 0 },
            Msg::ChannelAftertouch { ch: 9, val: 50 },
        ]
    );
}

#[test]
fn a_resting_finger_plays_only_where_asked() {
    let (mut e, mut leds) = engine_with(Config::default());
    let mut msgs = Vec::new();
    let rest = PadHit { pad: 12, event: PadEvent::PressOn, value: 0 };
    e.on_pads(&[rest], &mut leds, &mut msgs);
    assert!(msgs.is_empty());
    assert_eq!(leds.get(87 + 12), colour(17, Level::Bright), "but it lights");

    let mut cfg = Config::default();
    cfg.pads.press_sends_note = true;
    e.reload(cfg);
    e.on_pads(&[rest, rest], &mut leds, &mut msgs);
    assert_eq!(msgs, vec![Msg::NoteOn { ch: 9, note: 36, vel: 1 }]);
}

#[test]
fn notes_balance_over_a_performance() {
    let (mut e, mut leds) = engine_with(Config::default());
    let mut msgs = Vec::new();
    let hit = |pad, event, value| PadHit { pad, event, value };
    e.on_pads(
        &[
            hit(0, PadEvent::NoteOn, 900),
            hit(0, PadEvent::NoteOn, 1200),
            hit(3, PadEvent::NoteOn, 50),
            hit(3, PadEvent::NoteOff, 0),
            hit(3, PadEvent::NoteOff, 0),
            hit(40, PadEvent::NoteOn, 900),
        ],
        &mut leds,
        &mut msgs,
    );
    let ons = msgs.iter().filter(|m| matches!(m, Msg::NoteOn { .. })).count();
    let offs = msgs.iter().filter(|m| matches!(m, Msg::NoteOff { .. })).count();
    assert_eq!((ons, offs), (3, 2), "one pad still sounds: {msgs:?}");
}

#[test]
fn the_host_lights_buttons_and_pads() {
    let mut cfg = Config::default();
    bind_led(&mut cfg, "mixer", "cc 2 7", ButtonMode::Momentary, LedMode::Midi);
    let (mut e, mut leds) = engine_with(cfg);
    e.on_host_midi(Msg::Cc { ch: 1, cc: 7, val: 1 }, &mut leds);
    assert_eq!(leds.get(3), 127);
    e.on_host_midi(Msg::Cc { ch: 1, cc: 7, val: 0 }, &mut leds);
    assert_eq!(leds.get(3), 10);
    e.on_host_midi(Msg::Cc { ch: 1, cc: 8, val: 1 }, &mut leds);
    assert_eq!(leds.get(3), 10, "another address");
    let before: Vec<u8> = (0..103).map(|i| leds.get(i)).collect();
    e.on_host_midi(Msg::Cc { ch: 1, cc: 7, val: 9 }, &mut leds);
    assert!((0..103).all(|i| (i == 3) == (leds.get(i) != before[i])), "no other slot");
    e.on_host_midi(Msg::NoteOn { ch: 9, note: 36, vel: 80 }, &mut leds);
    assert_eq!(leds.get(87 + 12), colour(17, Level::Bright));
    e.on_host_midi(Msg::NoteOff { ch: 9, note: 36, vel: 0 }, &mut leds);
    assert_eq!(leds.get(87 + 12), colour(11, Level::Dim));
    e.on_host_midi(Msg::Start, &mut leds);
}

#[test]
fn every_button_that_mirrors_an_address_shows_it() {
    let mut cfg = Config::default();
    bind_led(&mut cfg, "mixer", "note 10 36", ButtonMode::Momentary, LedMode::Midi);
    bind_led(&mut cfg, "play", "note 10 36", ButtonMode::Toggle, LedMode::Midi);
    bind_led(&mut cfg, "rec", "note 10 36", ButtonMode::Momentary, LedMode::Follow);
    let (mut e, mut leds) = engine_with(cfg);
    let shown = |leds: &Leds| (0..103).filter(|&i| leds.get(i) != 0).collect::<Vec<_>>();
    e.on_host_midi(Msg::NoteOn { ch: 9, note: 36, vel: 1 }, &mut leds);
    assert_eq!(shown(&leds), [3, 41, 87 + 12]);
    assert_eq!((leds.get(3), leds.get(41)), (127, colour(17, Level::Bright)));
    e.on_host_midi(Msg::NoteOff { ch: 9, note: 36, vel: 64 }, &mut leds);
    assert_eq!((leds.get(3), leds.get(41)), (10, colour(17, Level::Dim)));
    assert_eq!(leds.get(87 + 12), colour(11, Level::Dim));
}

#[test]
fn only_changed_slots_have_to_be_written_out() {
    let mut cfg = Config::default();
    bind(&mut cfg, "mixer", "cc 2 7", ButtonMode::Momentary);
    bind_led(&mut cfg, "play", "cc 2 8", ButtonMode::Momentary, LedMode::Midi);
    let (mut e, mut leds) = engine_with(cfg);
    let mut msgs = Vec::new();
    e.paint_idle(&mut leds);
    leds.mark_published();
    e.paint_idle(&mut leds);
    assert!(!leds.is_dirty(), "the picture is there already");

    collect(&mut e, &ControlState::default(), &mut leds);
    let mut turned = ControlState::default();
    turned.knobs[0] = 400;
    assert!(!collect(&mut e, &turned, &mut leds).is_empty());
    let press = PadHit { pad: 0, event: PadEvent::Aftertouch, value: 2000 };
    e.on_pads(&[press], &mut leds, &mut msgs);
    e.on_host_midi(Msg::Cc { ch: 1, cc: 7, val: 127 }, &mut leds);
    e.on_host_midi(Msg::Cc { ch: 1, cc: 8, val: 0 }, &mut leds);
    assert!(!leds.is_dirty(), "nothing of that lights anything");

    assert!(!collect(&mut e, &pressed("mixer"), &mut leds).is_empty());
    assert!(leds.is_dirty());
    leds.mark_published();
    // A hit that is over within a report leaves the slots as they were, but it was written.
    let hit = |event, value| PadHit { pad: 0, event, value };
    let before: Vec<u8> = (0..103).map(|i| leds.get(i)).collect();
    e.on_pads(&[hit(PadEvent::NoteOn, 900), hit(PadEvent::NoteOff, 0)], &mut leds, &mut msgs);
    assert!((0..103).all(|i| leds.get(i) == before[i]) && leds.is_dirty());
}

#[test]
fn leds_that_are_off_stay_dark() {
    let mut cfg = Config::default();
    cfg.leds.enabled = false;
    bind(&mut cfg, "mixer", "cc 2 7", ButtonMode::Momentary);
    let (mut e, mut leds) = engine_with(cfg);
    e.paint_idle(&mut leds);
    collect(&mut e, &ControlState::default(), &mut leds);
    assert!(!collect(&mut e, &pressed("mixer"), &mut leds).is_empty());
    let mut msgs = Vec::new();
    e.on_pads(&[PadHit { pad: 0, event: PadEvent::NoteOn, value: 900 }], &mut leds, &mut msgs);
    e.on_host_midi(Msg::NoteOn { ch: 9, note: 36, vel: 80 }, &mut leds);
    assert!((0..103).all(|i| leds.get(i) == 0));
}

#[test]
fn a_reload_clears_latches_and_keeps_the_baseline() {
    let mut cfg = Config::default();
    bind(&mut cfg, "mute", "cc 1 20", ButtonMode::Toggle);
    let (mut e, mut leds) = engine_with(cfg.clone());
    collect(&mut e, &ControlState::default(), &mut leds);
    collect(&mut e, &pressed("mute"), &mut leds);
    collect(&mut e, &ControlState::default(), &mut leds);
    e.reload(cfg);
    // The next press is acted on at once, and switches on again.
    assert_eq!(
        collect(&mut e, &pressed("mute"), &mut leds),
        vec![Msg::Cc { ch: 0, cc: 20, val: 127 }]
    );
    e.forget_device_state();
    assert!(collect(&mut e, &ControlState::default(), &mut leds).is_empty(), "a baseline again");
    assert_eq!(e.config().pads.channel, 10);
    assert_eq!(e.profile().device.vendor, 0x17cc);
}

#[test]
fn a_button_led_inside_the_pad_block_is_rejected() {
    let mut p = mk3();
    p.validate().unwrap();
    let base = p.layout.pad_led_base;
    p.control.get_mut("play").unwrap().led = Some(base + 1);
    assert!(
        p.validate().is_err(),
        "the pad block is repainted wholesale; a button there would flicker"
    );
    assert_eq!(
        p.validate().unwrap_err().message(),
        "control.play: LED slot 88 is inside the pad or touch strip block"
    );
}

#[test]
fn duplicate_bits_are_rejected() {
    let mut p = mk3();
    let bit = p.control.get("play").unwrap().bit;
    p.control.get_mut("stop").unwrap().bit = bit;
    assert!(p.validate().is_err());
    assert_eq!(
        p.validate().unwrap_err().message(),
        "control.stop and control.play both claim bit 45"
    );
}

#[test]
fn a_name_the_device_does_not_have_is_rejected() {
    let mut c = Config::default();
    c.buttons.insert("plya".to_string(), Binding::Send("cc 1 1".to_string()));
    let err = c.validate_against(&mk3()).unwrap_err().message();
    assert!(err.contains("plya"), "{err}");
    assert!(err.contains("play"), "a typo should suggest the real name: {err}");
    assert_eq!(err, "buttons.plya: no control called that; did you mean play?");
}

#[test]
fn a_name_like_no_other_gets_no_suggestion() {
    let mut c = Config::default();
    c.buttons.insert("zzzzzzzz".to_string(), Binding::Send("cc 1 1".to_string()));
    let err = c.validate_against(&mk3()).unwrap_err().message();
    assert_eq!(err, "buttons.zzzzzzzz: no control called that on this device");
}

#[test]
fn compiled_buttons_are_ordered_by_bit() {
    let mut c = Config::default();
    bind(&mut c, "mixer", "note 1 2", ButtonMode::Trigger);
    bind(&mut c, "play", "nonsense", ButtonMode::Momentary);
    bind(&mut c, "mute", "pc 4 9", ButtonMode::Toggle);
    c.buttons.insert("unknown".to_string(), Binding::Send("cc 1 1".to_string()));
    let v = c.compiled_buttons(&mk3());
    let names: Vec<&str> = v.iter().map(|b| b.name.as_str()).collect();
    assert_eq!(names, vec!["mute", "play", "mixer"]);
    assert_eq!((v[1].led, v[1].led_colour), (41, 17));
    assert_eq!((v[2].led, v[2].led_colour), (3, -1));
    assert_eq!(v[1].action.message(true), None, "an action that does not read does nothing");
}

#[test]
fn profile_lookups_and_faults() {
    let mut p = mk3();
    assert_eq!(p.report.led_count(), 103);
    assert_eq!(p.buttons().len(), 8);
    assert_eq!(p.placed().len(), 0);
    assert_eq!(p.button_at_bit(45).unwrap().0, "play");
    assert!(p.button_at_bit(0).is_none());
    assert_eq!(p.control_at_led(3).unwrap().0, "mixer");
    assert!(p.control_at_led(90).is_none());

    p.control.get_mut("mixer").unwrap().led = Some(41);
    assert_eq!(
        p.validate().unwrap_err().message(),
        "control.play and control.mixer both claim LED slot 41"
    );
    p.control.get_mut("mixer").unwrap().led = Some(103);
    assert_eq!(p.validate().unwrap_err().message(), "control.mixer: led 103 outside 0..103");
    p.control.get_mut("mixer").unwrap().led = None;
    p.control.get_mut("mixer").unwrap().bit = Some(80);
    assert_eq!(p.validate().unwrap_err().message(), "control.mixer: bit 80 outside 0..80");
    p.control.get_mut("mixer").unwrap().bit = None;
    assert_eq!(
        p.validate().unwrap_err().message(),
        "control.mixer is a button but has no bit"
    );
    assert!(p.control.remove("mixer").is_some());
    p.validate().unwrap();

    let mut q = mk3();
    q.layout.button_bits = 81;
    assert_eq!(
        q.validate().unwrap_err().message(),
        "layout.button_bits must be a multiple of 8"
    );
    q.layout.button_bits = 80;
    q.layout.pads = 17;
    assert_eq!(
        q.validate().unwrap_err().message(),
        "pad LEDs run past the last slot (103)"
    );
    q.layout.pads = 16;
    q.layout.strip_leds = usize::MAX;
    assert_eq!(
        q.validate().unwrap_err().message(),
        "touch strip LEDs run past the last slot (103)"
    );
    q.layout.strip_leds = 26;
    assert_eq!(
        q.validate().unwrap_err().message(),
        "the pad block (87..103) and the touch strip block (62..88) overlap"
    );
    q.layout.strip_leds = 25;
    q.layout.strip_analog = 7;
    assert_eq!(
        q.validate().unwrap_err().message(),
        "layout.strip_analog 7 is outside 0..7"
    );
    q.layout.strip_analog = 1;
    q.layout.pedal_analog_base = 7;
    assert_eq!(
        q.validate().unwrap_err().message(),
        "layout.pedal_analog_base 7 is outside 0..7"
    );
    q.layout.pedal_analog_base = 4;
    q.layout.pad_max = 0;
    assert_eq!(q.validate().unwrap_err().message(), "full-scale values must be above 0");
}
