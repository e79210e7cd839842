use maschine_mk3::hid::{ControlState, PadEvent, PadHit};
use maschine_mk3::leds::{Leds, Ramp};
use maschine_mk3::learn::buttons::{
    handle_command, list, record, unmapped, Command, Input, Phase, Recorded, Saved, Session,
    BUTTONS_HELP,
};
use maschine_mk3::learn::colours::{is_done, palette, Marker};
use maschine_mk3::learn::pads::{order_note, read_answer, set_base, Search};
use maschine_mk3::learn::probe::{
    calibration_line, display_line, gradient, hexdump, parse_u8, probe, ramp_line, serial_line,
    strip_line, strip_value, Probe,
};
use maschine_mk3::learn::walk::{find_file, walk_range, Stage, Walk};
use maschine_mk3::learn::watch::{baseline, changes, hit_line, Watcher};
use maschine_mk3::learn::{live_bits, parse_usize, Note, Press, PRESS_WINDOW_MS};
use maschine_mk3::namemap::NameMap;
use maschine_mk3::profile::{Control, ControlKind, DeviceInfo, Layout, Profile, Reports};

fn button(bit: usize, led: Option<usize>) -> Control {
    Control {
        kind: ControlKind::Button,
        label: String::new(),
        index: 0,
        bit: Some(bit),
        led,
        led_colour: None,
        group: None,
        x: None,
        y: None,
        w: None,
        h: None,
    }
}

fn profile() -> Profile {
    let mut map: NameMap<Control> = NameMap::new();
    map.insert("play".into(), button(45, Some(41)));
    map.insert("encoder_touch".into(), button(71, None));
    map.insert("stop".into(), button(47, None));
    Profile {
        device: DeviceInfo { name: "Maschine MK3".into(), vendor: 0x17cc, product: 0x1600 },
        report: Reports { controls: 1, pads: 2, led_banks: vec![(0x80, 62), (0x81, 41)] },
        layout: Layout {
            buttons_offset: 0,
            button_bits: 80,
            encoder_offset: 10,
            knobs_offset: 11,
            knobs: 8,
            knob_max: 999,
            analog_offset: 27,
            analog_count: 7,
            pads: 16,
            pad_max: 4095,
            pad_led_base: 87,
            strip_led_base: 62,
            strip_leds: 25,
            strip_led_reversed: false,
            strip_analog: 1,
            strip_max: 1024,
            pedal_analog_base: 4,
            panel_width: 0,
            panel_height: 0,
        },
        control: map,
    }
}

fn held(bits: &[usize]) -> ControlState {
    let mut s = ControlState::default();
    for b in bits {
        s.buttons[b / 8] |= 1 << (b % 8);
    }
    s
}

fn said(v: &[Note]) -> Vec<&str> {
    v.iter().map(|n| n.text.as_str()).collect()
}

fn args(v: &[&str]) -> Vec<String> {
    v.iter().map(|s| s.to_string()).collect()
}

#[test]
fn presses_are_gathered_over_a_window() {
    assert_eq!(live_bits(&held(&[3, 71, 0]), &vec![71]), vec![0, 3]);
    let mut p = Press::new();
    assert_eq!(p.wait_ms(0), Some(200));
    p.report(&held(&[71]), &vec![]);
    p.report(&held(&[71, 2]), &vec![]);
    assert_eq!(p.down, vec![2, 71]);
    assert_eq!(p.wait_ms(100), Some(250));
    assert_eq!(p.wait_ms(349), Some(1));
    assert_eq!(p.wait_ms(350), None);
    assert_eq!(parse_usize("+12"), Some(12));
    assert_eq!(parse_usize("-1"), None);
    assert_eq!(parse_usize(""), None);
    assert_eq!(parse_usize("99999999999999999999"), None);
}

#[test]
fn commands_are_understood() {
    let p = profile();
    let mut ignored = Vec::new();
    let mut out = Vec::new();
    let mut run = |line: &str, ignored: &mut Vec<usize>| handle_command(line, &p, ignored, &mut out);
    assert!(matches!(run(" done", &mut ignored), Command::Done));
    assert!(matches!(run("quit now", &mut ignored), Command::Done));
    assert!(matches!(run("play", &mut ignored), Command::NotACommand));
    assert!(matches!(run("", &mut ignored), Command::NotACommand));
    assert!(matches!(run("ignore 71", &mut ignored), Command::Ignore(71)));
    assert!(matches!(run("ignore 3", &mut ignored), Command::Ignore(3)));
    assert!(matches!(run("ignore 71", &mut ignored), Command::Ignore(71)));
    assert_eq!(ignored, vec![3, 71]);
    assert!(matches!(run("unignore 3", &mut ignored), Command::Unignore(3)));
    assert_eq!(ignored, vec![71]);
    assert!(matches!(run("ignore", &mut ignored), Command::Usage(true)));
    assert!(matches!(run("unignore x", &mut ignored), Command::Usage(false)));
    assert!(matches!(run("ignore 80", &mut ignored), Command::BadBit(80)));
    assert!(matches!(run("?", &mut ignored), Command::Help));
    assert_eq!(
        said(&out),
        vec![
            "  ignoring bit 71",
            "  ignoring bit 3",
            "  ignoring bit 71",
            "  no longer ignoring bit 3",
            "  ! usage: ignore <bit>",
            "  ! usage: unignore <bit>",
            "  ! bit 80 is outside 0..80",
            BUTTONS_HELP,
        ]
    );
    out.clear();
    assert!(matches!(handle_command("list", &p, &mut ignored, &mut out), Command::List));
    assert_eq!(out.last().unwrap().text, "  ignoring bits [71]");
}

#[test]
fn what_is_mapped_is_listed() {
    let p = profile();
    let mut out = Vec::new();
    list(&p, &mut out);
    assert_eq!(
        said(&out),
        vec![
            "   bit   led  name",
            "    45    41  play",
            "    47     -  stop",
            "    71     -  encoder_touch",
        ]
    );
    assert!(unmapped(&p).starts_with("  3 of 80 bits mapped; still free: [0, 1, 2, "));
    assert!(unmapped(&p).ends_with(", 78, 79]"));
    let mut empty = profile();
    empty.control = NameMap::new();
    out.clear();
    list(&empty, &mut out);
    assert_eq!(said(&out), vec!["  (nothing mapped yet)"]);
}

#[test]
fn recorded_buttons_are_found_again() {
    let mut p = profile();
    assert!(matches!(record(&mut p, 5, "new one", &None), Recorded::BadName));
    assert!(matches!(record(&mut p, 5, "rec", &Some("103".into())), Recorded::BadLed(102)));
    assert!(matches!(record(&mut p, 5, "play", &None), Recorded::Taken(45)));
    assert!(matches!(record(&mut p, 5, "rec", &Some("7".into())), Recorded::Done(None, Some(7))));
    let (name, c) = p.button_at_bit(5).unwrap();
    assert_eq!((name.as_str(), c.led, c.label.as_str()), ("rec", Some(7), "REC"));
    match record(&mut p, 5, "rec2", &None) {
        Recorded::Done(Some(old), None) => assert_eq!(old, "rec"),
        _ => panic!("renaming a bit retires the old name"),
    }
    assert!(p.get("rec").is_none());
    assert_eq!(p.button_at_bit(5).unwrap().0, "rec2");
    assert!(matches!(record(&mut p, 45, "play", &None), Recorded::Done(None, None)));
    assert_eq!(p.get("play").unwrap().led, Some(41), "an LED already known is kept");
    let saved = Saved { name: "a".into(), bit: 3, led: Some(9) };
    assert_eq!(saved.text(), "  ok: a = bit 3, led 9  [saved]");
    assert_eq!(Saved { led: None, ..saved }.text(), "  ok: a = bit 3  [saved]");
}

#[test]
fn a_session_names_a_press() {
    let mut p = profile();
    let mut s = Session::new();
    let mut out = Vec::new();
    assert!(matches!(s.phase, Phase::Settling(false)));
    s.on_input(&p, Input::Report(held(&[71])), 1600, false, &mut out);
    s.on_input(&p, Input::Report(held(&[71])), 1700, false, &mut out);
    assert_eq!(
        said(&out),
        vec!["  ...still held: [71]. If one of these is stuck, type `ignore <bit>`."]
    );
    out.clear();
    s.on_input(&p, Input::Report(held(&[])), 1800, false, &mut out);
    assert!(matches!(s.phase, Phase::Collecting(_)));
    s.on_input(&p, Input::Line("hello".into()), 0, false, &mut out);
    assert_eq!(said(&out), vec!["  (nothing to name yet -- press a button first)"]);
    out.clear();
    // The clock of the press starts with its first bit, once.
    assert!(s.on_input(&p, Input::Report(held(&[71])), 0, true, &mut out));
    assert!(!s.on_input(&p, Input::Report(held(&[71, 2])), 20, false, &mut out));
    assert_eq!(
        said(&out),
        vec!["  debug: buttons=[00, 00, 00, 00, 00, 00, 00, 00, 80, 00]"]
    );
    out.clear();
    assert_eq!(s.wait_ms(400), None);
    s.close(&p, &mut out);
    assert_eq!(said(&out), vec!["  bits down: 2 (new), 71 (encoder_touch)", "bit  2 -- new"]);
    out.clear();
    let saved = s.on_name(&mut p, "encoder_up 4", &mut out).unwrap();
    assert_eq!((saved.name.as_str(), saved.bit, saved.led), ("encoder_up", 2, Some(4)));
    assert_eq!(p.button_at_bit(2).unwrap().0, "encoder_up");
    assert!(matches!(s.phase, Phase::Settling(false)));
}

#[test]
fn a_session_takes_other_answers() {
    let mut p = profile();
    let ask = |p: &mut Profile, line: &str| {
        let mut s = Session::new();
        let mut out = Vec::new();
        s.on_input(p, Input::Timeout, 0, false, &mut out);
        s.on_input(p, Input::Report(held(&[45, 9])), 0, false, &mut out);
        s.close(p, &mut out);
        out.clear();
        let saved = s.on_name(p, line, &mut out);
        let notes: Vec<String> = out.iter().map(|n| n.text.clone()).collect();
        (s, saved, notes)
    };
    let (_, saved, notes) = ask(&mut p, "  ");
    assert!(saved.is_none());
    assert_eq!(notes, vec!["  skipped"]);
    let (_, saved, notes) = ask(&mut p, "12 name");
    assert!(saved.is_none());
    assert_eq!(notes, vec!["  ! bit 12 was not among [9, 45]"]);
    let (_, saved, notes) = ask(&mut p, "45");
    assert!(saved.is_none());
    assert_eq!(notes, vec!["  using bit 45; press the button again to name it"]);
    let (_, saved, notes) = ask(&mut p, "45 go");
    assert_eq!(saved.unwrap().bit, 45);
    assert_eq!(notes, vec!["  (renamed `play` to `go`)"]);
    let (s, saved, _) = ask(&mut p, "done");
    assert!(saved.is_none());
    assert!(matches!(s.phase, Phase::Finished));
}

#[test]
fn led_walk_arguments() {
    assert_eq!(find_file(&args(&["3", "a.toml", "b.toml"])), Some("a.toml".into()));
    assert_eq!(find_file(&args(&["--x"])), None);
    assert!(matches!(walk_range(&args(&[])), Ok((0, 62))));
    assert!(matches!(walk_range(&args(&["20", "--x", "a.toml", "999"])), Ok((20, 103))));
    assert_eq!(
        walk_range(&args(&["62"])).unwrap_err().message(),
        Some("start 62 must be below end 62".into())
    );
    assert!(walk_range(&args(&["x"])).is_err());
}

#[test]
fn led_walk_records_presses() {
    let mut p = profile();
    let mut w = Walk::new(41, 44);
    let mut out = Vec::new();
    assert_eq!(w.headline(&p), "slot  41 is lit  [currently play]");
    // Two bits: the one without an LED slot is taken.
    w.stage = Stage::Pressed(vec![45, 47]);
    let name = w.on_press(&mut p, &mut out).unwrap();
    assert_eq!(name, "stop");
    assert_eq!(
        said(&out),
        vec!["  bits down: 45 (play), 47 (stop) -> taking 47", "  (slot 41 taken from `play`)"]
    );
    assert_eq!((p.get("stop").unwrap().led, p.get("play").unwrap().led), (Some(41), None));
    assert_eq!(w.saved(name), "  ok: slot 41 = stop  [saved]");
    assert_eq!(w.headline(&p), "slot  42 is lit");
    out.clear();
    w.stage = Stage::Pressed(vec![9]);
    assert!(w.on_press(&mut p, &mut out).is_none());
    assert!(matches!(w.stage, Stage::Lighting), "the slot is lit again");
    assert_eq!(
        said(&out),
        vec!["  ! bit 9 has no name -- map it with `mk3-learn buttons`, then come back"]
    );
    out.clear();
    w.stage = Stage::Pressed(vec![47]);
    assert_eq!(w.on_press(&mut p, &mut out).as_deref(), Some("stop"));
    assert_eq!(said(&out), vec!["  (`stop` moved from slot 41)"]);
    w.not_saved();
    assert_eq!(w.slot, 43);
    out.clear();
    w.summary(&p, &mut out);
    assert_eq!(
        said(&out),
        vec![
            "\nRecorded 1 slot(s) this run:",
            "  slot  41  stop",
            "1 of 3 buttons now have an LED slot.",
        ]
    );
}

#[test]
fn led_walk_waits_for_quiet_and_collects_a_press() {
    let p = profile();
    let mut w = Walk::new(3, 5);
    let mut leds = Leds::new();
    let mut out = Vec::new();
    leds.set(7, 9);
    leds.mark_published();
    w.light(&mut leds);
    assert!(leds.is_dirty());
    assert!((0..103).all(|i| leds.get(i) == if i == 3 { 0x7f } else { 0 }));

    // What is still held is not the answer, and neither is a line typed meanwhile.
    assert_eq!(w.wait_ms(9999), Some(150));
    assert!(!w.on_input(&p, Input::Report(held(&[45])), &mut out));
    assert!(matches!(w.stage, Stage::Settling));
    assert!(!w.on_input(&p, Input::Line("done".into()), &mut out));
    assert!(matches!(&w.stage, Stage::Collecting(q) if q.down.is_empty()));
    assert_eq!((w.wait_ms(9999), w.going()), (Some(200), true));

    // The clock starts with the first bit, once.
    assert!(!w.on_input(&p, Input::Timeout, &mut out));
    assert!(!w.on_input(&p, Input::Report(held(&[])), &mut out));
    assert!(w.on_input(&p, Input::Report(held(&[71])), &mut out));
    assert!(!w.on_input(&p, Input::Report(held(&[47, 71])), &mut out));
    assert!(!w.on_input(&p, Input::Report(held(&[])), &mut out));
    assert_eq!(w.wait_ms(PRESS_WINDOW_MS - 1), Some(1));
    assert_eq!(w.wait_ms(PRESS_WINDOW_MS), None);
    w.close();
    assert!(matches!(&w.stage, Stage::Pressed(d) if d[..] == [47, 71]));

    // A silence ends a press too, and a line ends the wait for one.
    w.not_saved();
    for typed in ["j 3", "done"] {
        w.light(&mut leds);
        w.on_input(&p, Input::Timeout, &mut out);
        w.on_input(&p, Input::Report(held(&[45])), &mut out);
        if typed == "done" {
            w.on_input(&p, Input::Timeout, &mut out);
            assert!(matches!(&w.stage, Stage::Pressed(d) if d[..] == [45]));
            w.stage = Stage::Settling;
            w.on_input(&p, Input::Timeout, &mut out);
        }
        w.on_input(&p, Input::Line(typed.into()), &mut out);
    }
    assert_eq!(w.slot, 3);
    assert!(matches!(w.stage, Stage::Finished) && !w.going());
    assert!(out.is_empty());
}

#[test]
fn led_walk_commands() {
    let p = profile();
    let mut w = Walk::new(0, 62);
    let mut out = Vec::new();
    w.on_line(&p, "", &mut out);
    w.on_line(&p, "skip", &mut out);
    assert_eq!(w.slot, 2);
    w.on_line(&p, "b", &mut out);
    w.on_line(&p, "b", &mut out);
    w.on_line(&p, "b", &mut out);
    assert_eq!(w.slot, 0);
    w.on_line(&p, "j 102", &mut out);
    assert_eq!(w.slot, 102);
    assert!(!w.going());
    w.on_line(&p, "j 103", &mut out);
    w.on_line(&p, "ignore 71", &mut out);
    w.on_line(&p, "ignore x", &mut out);
    w.on_line(&p, "unignore 71", &mut out);
    w.on_line(&p, "list", &mut out);
    w.on_line(&p, "wat now", &mut out);
    assert_eq!(
        said(&out),
        vec![
            "  ! usage: j <slot 0..102>",
            "  ignoring bit 71",
            "  ! usage: ignore <bit>",
            "  no longer ignoring bit 71",
            "  no LED slot yet (2): encoder_touch stop",
            "  ! press the lit button, or type enter / b / j / ignore / list / done (got `wat`)",
        ]
    );
    assert_eq!(w.slot, 102);
    out.clear();
    w.summary(&p, &mut out);
    assert_eq!(out[0].text, "\nNothing recorded this run.");
}

#[test]
fn the_pad_block_is_found() {
    let s = Search::new();
    assert_eq!(s.range(), (62, 78));
    assert_eq!(s.question().unwrap(), "slots 62..78: are all 16 pads lit? (y/n) ");
    let s = s.answer(false);
    assert_eq!(s.range(), (87, 103));
    let s = s.answer(true);
    assert!(matches!(s, Search::Confirm(87)));
    assert_eq!(
        s.question().unwrap(),
        "\nslots 87..103: all 16 pads lit, and no pad left dark? (y/n) "
    );
    assert!(matches!(s.answer(true), Search::Found(87)));

    // A search over every slot takes at most seven more answers.
    for first in 0..87usize {
        let mut s = Search::new().answer(false).answer(false);
        assert_eq!(s.range(), (0, 103));
        s = s.answer(true);
        let mut asked = 0;
        while let Search::Halving(_, _) = s {
            let (lo, hi) = s.range();
            s = s.answer(lo < first + 16 && first < hi);
            asked += 1;
        }
        assert!(asked <= 7);
        assert!(matches!(s, Search::Confirm(b) if b == first), "first pad at {first}");
    }
    let s = Search::new().answer(false).answer(false).answer(false);
    assert_eq!(
        s.failure().unwrap(),
        "no slot lights a pad -- is this really a Maschine MK3?"
    );
    let s = Search::new().answer(true).answer(false);
    assert_eq!(
        s.failure().unwrap(),
        "slots 62..78 are not the pad block; run `mk3-learn leds 62` to step through them one at a time"
    );
}

#[test]
fn the_pad_block_is_recorded() {
    assert_eq!(read_answer("YES"), Some(true));
    assert_eq!(read_answer("n"), Some(false));
    assert_eq!(read_answer("maybe"), None);
    assert_eq!(order_note(87, "1"), "  ascending from the bottom-left, as the config assumes");
    assert_eq!(order_note(87, "x"), "  skipped");
    assert_eq!(
        order_note(87, "13"),
        "  NOTE: slot 87 is the top-left pad, so the grid runs top-down.\n\
         Reorder pads.notes to match, or renumber as you prefer."
    );
    assert_eq!(
        order_note(87, "4"),
        "  NOTE: slot 87 is pad 4, so pad 0 in the config is that pad.\n\
         Adjust pads.notes if the layout matters to you."
    );
    let mut p = profile();
    assert!(matches!(set_base(&mut p, 87), Ok(false)));
    assert!(set_base(&mut p, 62).is_err(), "it would overlap the strip");
    let mut p = profile();
    assert!(matches!(set_base(&mut p, 0), Ok(true)));
    assert_eq!(p.layout.pad_led_base, 0);
    // Nothing else of the profile moved.
    p.layout.pad_led_base = profile().layout.pad_led_base;
    assert_eq!(format!("{p:?}"), format!("{:?}", profile()));
}

#[test]
fn colour_leds_are_marked() {
    assert_eq!(palette(&args(&["x", "--palette=4", "--palette=9"])), 4);
    assert_eq!(palette(&args(&["--palette=400"])), 17);
    assert!(is_done(" done x") && is_done("q") && !is_done("quit") && !is_done(""));
    let mut p = profile();
    let mut m = Marker::new(4);
    let mut out = Vec::new();
    assert_eq!(m.summary(), "\nNothing marked this run.");
    assert_eq!(m.on_report(&mut p, &held(&[45]), &mut out).as_deref(), Some("play"));
    assert_eq!(p.get("play").unwrap().led_colour, Some(4));
    assert!(m.on_report(&mut p, &held(&[45]), &mut out).is_none(), "still held");
    assert!(m.on_report(&mut p, &held(&[]), &mut out).is_none());
    assert_eq!(m.on_report(&mut p, &held(&[45]), &mut out).as_deref(), Some("play"));
    assert!(m.on_report(&mut p, &held(&[1]), &mut out).is_none());
    assert_eq!(m.on_report(&mut p, &held(&[47]), &mut out).as_deref(), Some("stop"));
    assert_eq!(
        said(&out),
        vec![
            "  ! bit 1 has no name yet",
            "  ? `stop` has no LED slot yet, so this may be a mis-press (a touch sensor, say). Recording anyway; undo with `mk3-gui`.",
        ]
    );
    assert_eq!(m.summary(), "\nMarked 2 colour LED(s): play stop");
}

#[test]
fn probing() {
    assert_eq!(parse_u8(" 0x47 "), Some(0x47));
    assert_eq!(parse_u8("0XfF"), Some(255));
    assert_eq!(parse_u8("256"), None);
    assert_eq!(parse_u8("0x"), None);
    assert!(matches!(probe(&args(&["rgb"])), Probe::Slots(0, 103, 0x05)));
    assert!(matches!(probe(&args(&["mono"])), Probe::Slots(0, 103, 0x7c)));
    assert!(matches!(probe(&args(&["strip"])), Probe::Strip));
    assert!(matches!(probe(&args(&[])), Probe::Slots(0, 103, 0x47)));
    assert!(matches!(probe(&args(&["3", "400", "0x11"])), Probe::Slots(3, 103, 0x11)));
    assert!(matches!(probe(&args(&["9", "9"])), Probe::Empty(9, 9)));
    assert!(matches!(probe(&args(&["9", "x"])), Probe::Number(_)));
    assert_eq!((strip_value(0), strip_value(24)), (7, 0x67));
    assert_eq!(strip_line(24), format!("  {:>8}  0x{:02x}", 25, 0x67));
    assert_eq!(gradient(0, 0), (0, 0, 255));
    assert_eq!(gradient(479, 271), (254, 254, 1));
}

#[test]
fn feature_reports_are_printed() {
    assert_eq!(hexdump(&[0, 0x1f, 0xff]), "00 1f ff");
    assert_eq!(hexdump(&[]), "");
    assert_eq!(
        display_line(&[0xf8, 0xe0, 1, 0x10, 1, 16, 0, 0, 80, 50, 0]),
        "     480x272, 16 bpp, brightness 80, contrast 50"
    );
    assert_eq!(calibration_line(&[0xda, 1, 2, 0, 1, 9]), "     [513, 256]");
    assert_eq!(serial_line(&[0xd9, b'A', b'B', 0, b'C']), "     \"AB\"");
    assert_eq!(
        ramp_line(3, &Ramp([(1, 20, 127), (0, 0, 0), (1, 1, 1), (9, 9, 9)])),
        "   3: (  1, 20,127) (  0,  0,  0) (  1,  1,  1) (  9,  9,  9)"
    );
}

#[test]
fn watching_prints_changes() {
    let a = ControlState::default();
    let mut b = held(&[9]);
    b.encoder_lo = 15;
    b.encoder_hi = 2;
    b.knobs[3] = 999;
    b.analog[0] = 16;
    b.analog[1] = 5;
    b.analog[4] = 12345;
    let mut out = Vec::new();
    changes(&a, &a, &mut out);
    assert!(out.is_empty());
    changes(&a, &b, &mut out);
    assert_eq!(
        out,
        vec![
            "button bit  9  down",
            "encoder      0 -> 15  (-1)",
            "encoder-hi   0 -> 2",
            "knob 3          0 ->  999",
            "analog 0         0 ->    16  (free-running counter, not a control)",
            "analog 1         0 ->     5  (touch strip)",
            "analog 4         0 -> 12345",
        ]
    );
    assert_eq!(
        baseline(&b),
        format!("baseline: buttons={:02x?} knobs={:?}", b.buttons, b.knobs)
    );
    let h = PadHit { pad: 3, event: PadEvent::Aftertouch, value: 77 };
    assert_eq!(hit_line(&h), format!("pad {:>2}       {:?} @ {}", 3, h.event, 77));
}

#[test]
fn a_watcher_reads_reports() {
    let mut w = Watcher::new(true);
    let mut out = Vec::new();
    let mut r = vec![0u8; 42];
    r[0] = 1;
    w.on_report(&r, &mut out);
    assert_eq!(out.len(), 2);
    assert!(out[0].starts_with("raw 0x01     00 00"));
    assert!(out[1].starts_with("baseline: "));
    out.clear();
    w.on_report(&r, &mut out);
    assert!(out.is_empty());
    w.on_report(&[], &mut out);
    w.on_report(&[0x02, 5, 0x1f, 0xff], &mut out);
    w.on_report(&[0x77, 1, 0xff], &mut out);
    assert_eq!(out, vec!["pad  5       NoteOn @ 4095", "report 0x77: [01, ff]"]);
}
