use maschine_mk3::config::{
    Action, Binding, ButtonMode, Config, Curve, LedMode, PadCfg, RelFormat, Transport,
};
use maschine_mk3::edit::edit_distance_at_most;
use maschine_mk3::hid::PADS;
use maschine_mk3::midi::Msg;
use maschine_mk3::profile::Profile;
use maschine_mk3::single::{shape, Bend};

#[test]
fn action_parsing_rejects_out_of_range() {
    assert!(Action::parse("cc 0 10").is_err(), "channel 0 is not valid MIDI");
    assert!(Action::parse("cc 17 10").is_err());
    assert!(Action::parse("note 1 200").is_err());
    assert!(Action::parse("wat").is_err());
}

#[test]
fn action_channels_are_zero_based_internally() {
    assert_eq!(
        Action::parse("cc 1 118").unwrap(),
        Action::Cc { ch: 0, cc: 118, on: 127 }
    );
    assert_eq!(
        Action::parse("cc 16 7 64").unwrap(),
        Action::Cc { ch: 15, cc: 7, on: 64 }
    );
}

#[test]
fn every_action_form_is_read() {
    assert_eq!(Action::parse("").unwrap(), Action::Nothing);
    assert_eq!(Action::parse("  \t ").unwrap(), Action::Nothing);
    assert_eq!(Action::parse("none whatever").unwrap(), Action::Nothing);
    assert_eq!(
        Action::parse(" note\t3   60 ").unwrap(),
        Action::Note { ch: 2, note: 60, vel: 127 }
    );
    assert_eq!(Action::parse("pc +2 +9").unwrap(), Action::Program { ch: 1, num: 9 });
    assert_eq!(Action::parse("stop").unwrap(), Action::Transport(Transport::Stop));
    assert_eq!(
        Action::parse("continue").unwrap(),
        Action::Transport(Transport::Continue)
    );
}

#[test]
fn action_errors_say_what_is_wrong() {
    let why = |s: &str| Action::parse(s).unwrap_err().message();
    assert_eq!(why("cc"), "`cc`: missing channel");
    assert_eq!(why("cc 1"), "`cc 1`: missing cc");
    assert_eq!(why("note x 1"), "`note x 1`: bad channel");
    assert_eq!(why("note 1 256"), "`note 1 256`: bad note");
    assert_eq!(why("note 1 -1"), "`note 1 -1`: bad note");
    assert_eq!(why("cc 17 1"), "`cc 17 1`: channel 17 outside 1..16");
    assert_eq!(why("cc 1 2 128"), "`cc 1 2 128`: value 128 outside 0..127");
    assert_eq!(why("pc 1 200"), "`pc 1 200`: program 200 outside 0..127");
    assert_eq!(why("  wat 1"), "`  wat 1`: unknown action `wat`");
}

#[test]
fn transport_only_fires_on_press() {
    let a = Action::parse("start").unwrap();
    assert_eq!(a.message(true), Some(Msg::Start));
    assert_eq!(a.message(false), None);
}

#[test]
fn releases_answer_presses() {
    let a = Action::parse("note 2 61").unwrap();
    assert_eq!(a.message(true), Some(Msg::NoteOn { ch: 1, note: 61, vel: 127 }));
    assert_eq!(a.message(false), Some(Msg::NoteOff { ch: 1, note: 61, vel: 0 }));
    let p = Action::parse("pc 2 61").unwrap();
    assert_eq!(p.message(true), Some(Msg::Program { ch: 1, num: 61 }));
    assert_eq!(p.message(false), None);
}

#[test]
fn relative_encodings_round_trip_sign() {
    assert_eq!(RelFormat::Twos.encode(1), 1);
    assert_eq!(RelFormat::Twos.encode(-1), 127);
    assert_eq!(RelFormat::BinOffset.encode(1), 65);
    assert_eq!(RelFormat::BinOffset.encode(-1), 63);
    assert_eq!(RelFormat::SignBit.encode(1), 1);
    assert_eq!(RelFormat::SignBit.encode(-1), 0x41);
}

#[test]
fn relative_encodings_saturate() {
    assert_eq!(RelFormat::Twos.encode(1000), 63);
    assert_eq!(RelFormat::Twos.encode(-1000), 65);
    assert_eq!(RelFormat::BinOffset.encode(i32::MIN), 1);
    assert_eq!(RelFormat::SignBit.encode(i32::MIN), 127);
}

#[test]
fn velocity_never_returns_zero_for_a_hit() {
    let mut p = PadCfg::default();
    p.curve = Curve::Hard;
    assert_eq!(p.velocity(1), 1, "a faint hit must not become a note off");
    assert_eq!(p.velocity(4095), 127);
}

#[test]
fn default_notes_put_the_lowest_note_bottom_left() {
    let c = Config::default();
    // HID 12 is the bottom-left pad; HID 0 is the top-left one.
    assert_eq!(c.pads.notes[12], 36, "bottom-left pad plays the lowest note");
    assert_eq!(c.pads.notes[0], 48, "top-left pad plays the highest row");
    assert_eq!(c.pads.notes[15], 39, "bottom row ascends left to right");
    let mut sorted = c.pads.notes.clone();
    sorted.sort_unstable();
    sorted.dedup();
    assert_eq!(sorted.len(), PADS, "every pad gets a distinct note");
}

#[test]
fn pressure_uses_the_whole_range_and_lifts_the_quiet_end() {
    let c = Config::default();
    // Measured ramp: a firm lean reaches 4094, but most of the comfortable
    // travel sits between 30 and 700.
    assert_eq!(c.pads.pressure(0), 0, "a released pad transmits nothing");
    assert_eq!(c.pads.pressure(40), 0, "and neither does one below the floor");
    assert_eq!(c.pads.pressure(4094), 127, "a firm lean reaches full scale");
    let mid = c.pads.pressure(700);
    assert!(
        (40..=70).contains(&mid),
        "the soft curve must put ordinary pressure mid-scale, got {mid}"
    );
    // Linear scaling is what this replaces; check it really would be worse.
    let mut linear = c.pads.clone();
    linear.aftertouch_curve = Curve::Linear;
    assert!(linear.pressure(700) < 25, "linear leaves it near silent");
}

#[test]
fn pressure_is_monotonic() {
    let c = Config::default();
    let mut last = 0;
    for raw in (0..=4095).step_by(37) {
        let v = c.pads.pressure(raw);
        assert!(v >= last, "pressure dipped at raw {raw}");
        last = v;
    }
}

#[test]
fn shorthand_and_full_forms_agree() {
    let short = Binding::Send("cc 1 118".into()).resolve();
    assert_eq!(short.send, "cc 1 118");
    assert_eq!(short.mode, ButtonMode::Momentary);
    assert_eq!(short.led, LedMode::Follow);
}

#[test]
fn velocity_scales_against_what_the_pads_actually_reach() {
    let c = Config::default();
    // Measured on hardware: a hard hit lands near 1950, ordinary playing
    // between 200 and 1400.
    assert_eq!(c.pads.velocity(1950), 124, "a hard hit is nearly full");
    assert!(
        (55..=75).contains(&c.pads.velocity(1000)),
        "a medium hit sits mid-scale, got {}",
        c.pads.velocity(1000)
    );
    assert_eq!(c.pads.velocity(4095), 127, "and it saturates rather than wrapping");
}

#[test]
fn a_fixed_velocity_ignores_the_strike() {
    let mut p = PadCfg::default();
    p.curve = Curve::Fixed;
    assert_eq!(p.velocity(3), 100);
    p.fixed_velocity = 0;
    assert_eq!(p.velocity(3), 1);
    p.fixed_velocity = 200;
    assert_eq!(p.velocity(3), 127);
}

/// Shaping agrees with single-precision arithmetic, roundings included.
#[test]
fn shaping_agrees_with_single_precision() {
    for full in (1..=65535u16).step_by(331).chain([209, 679, 1015, 2000, 4031, 4095, 65535]) {
        for raw in (0..=full).step_by(7).chain([164.min(full), 610.min(full), 1013.min(full), full]) {
            let x = raw as f32 / full as f32;
            for (bend, y) in [(Bend::Straight, x), (Bend::Root, x.sqrt()), (Bend::Square, x * x)] {
                let want = (y * 127.0).round() as i32;
                assert_eq!(shape(raw, full, bend) as i32, want, "{raw} of {full} by {bend:?}");
            }
        }
    }
}

#[test]
fn defaults_are_valid() {
    let c = Config::default();
    c.validate().unwrap();
    assert_eq!(c.general.client_name, "Maschine MK3");
    assert_eq!(c.knobs.ccs, vec![16, 17, 18, 19, 20, 21, 22, 23]);
    assert_eq!(c.pedal.ccs, vec![64, 67]);
    assert_eq!(c.touchstrip.led_value, 0x1f);
    assert_eq!(c.display.title, "MASCHINE MK3");
}

fn refused(edit: impl Fn(&mut Config)) -> String {
    let mut c = Config::default();
    edit(&mut c);
    c.validate().unwrap_err().details()
}

#[test]
fn config_errors_say_what_is_wrong() {
    assert_eq!(refused(|c| c.pads.channel = 0), "pads: channel 0 outside 1..16");
    assert_eq!(refused(|c| c.knobs.channel = 17), "knobs: channel 17 outside 1..16");
    assert_eq!(refused(|c| c.encoder.channel = 17), "encoder: channel 17 outside 1..16");
    assert_eq!(refused(|c| c.touchstrip.channel = 0), "touchstrip: channel 0 outside 1..16");
    assert_eq!(refused(|c| c.pedal.channel = 99), "pedal: channel 99 outside 1..16");
    assert_eq!(
        refused(|c| c.pads.notes = vec![1, 2]),
        "pads.notes needs 16 entries, found 2"
    );
    assert_eq!(
        refused(|c| c.pads.notes[3] = 128),
        "pads.notes contains 128, outside 0..127"
    );
    assert_eq!(
        refused(|c| c.knobs.ccs = vec![]),
        "knobs.ccs needs 8 entries, found 0"
    );
    assert_eq!(
        refused(|c| {
            c.knobs.high_resolution = true;
            c.knobs.ccs[7] = 32;
        }),
        "knobs.high_resolution needs CCs below 32 so the LSB can go to cc + 32; got [16, 17, 18, 19, 20, 21, 22, 32]"
    );
    assert_eq!(
        refused(|c| c.pedal.ccs = vec![1, 2, 3]),
        "pedal.ccs takes at most 2 entries"
    );
    assert_eq!(
        refused(|c| c.display.contrast = 101),
        "display brightness and contrast are 0..100"
    );
    assert_eq!(refused(|c| c.pads.idle_level = 4), "pads.idle_level is 0..3");
    assert_eq!(refused(|c| c.pads.velocity_max = 0), "pads.velocity_max must be above 0");
    assert_eq!(
        refused(|c| c.pads.aftertouch_max = 64),
        "pads.aftertouch_max (64) must exceed pads.aftertouch_floor (64)"
    );
    assert_eq!(refused(|c| c.knobs.travel = 0), "knobs.travel must be above 0");
    assert_eq!(refused(|c| c.knobs.initial = 128), "knobs.initial is 0..127");
    assert_eq!(refused(|c| c.encoder.initial = 128), "encoder.initial is 0..127");
    assert_eq!(refused(|c| c.encoder.step = 0), "encoder.step must not be 0");
    assert_eq!(
        refused(|c| {
            c.buttons.insert("solo".into(), Binding::Send("cc 1 1".into()));
            c.buttons.insert("mute".into(), Binding::Send("cc 0 1".into()));
        }),
        "buttons.mute: `cc 0 1`: channel 0 outside 1..16"
    );
    let mut c = Config::default();
    c.buttons.insert("mute".into(), Binding::Send("cc".into()));
    assert_eq!(c.validate().unwrap_err().message(), "buttons.mute");
}

#[test]
fn edits_are_counted() {
    assert!(edit_distance_at_most("play", "plya", 2));
    assert!(!edit_distance_at_most("play", "plya", 1));
    assert!(edit_distance_at_most("kitten", "sitting", 3));
    assert!(!edit_distance_at_most("kitten", "sitting", 2));
    assert!(edit_distance_at_most("", "ab", 2));
    assert!(!edit_distance_at_most("", "abc", 2));
    assert!(edit_distance_at_most("same", "same", 0));
    assert!(!edit_distance_at_most("abcdefgh", "hgfedcba", 2));
}

#[test]
fn files_are_found_under_the_users_directory() {
    let some = |s: &str| Some(s.to_string());
    assert_eq!(
        Config::default_path(&some("/cfg"), &some("/home/u")),
        "/cfg/maschine-mk3/config.toml"
    );
    assert_eq!(
        Config::default_path(&None, &some("/home/u")),
        "/home/u/.config/maschine-mk3/config.toml"
    );
    assert_eq!(Config::default_path(&None, &None), "./maschine-mk3/config.toml");
    assert_eq!(Config::default_path(&some(""), &None), "maschine-mk3/config.toml");
    assert_eq!(
        Profile::default_path(&some("/cfg/"), &None),
        "/cfg/maschine-mk3/devices/maschine-mk3.toml"
    );
}
