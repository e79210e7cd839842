use maschine_mk3::config::{Binding, Config};
use maschine_mk3::daemon::{
    auto_connect_exclude, display_interval_us, led_interval_us, on_report, parse_args, pause_us,
    preset_line, test_line, test_messages, AnnounceAction, AnnounceState, Announcement,
    Connection, Incoming, Mode, Options, Parsed,
};
use maschine_mk3::diagnose::{
    audio, display, files, hid, midi_port, pipewire, realtime, show, subscribers, summary, usb,
    usb_matches, ConfigFile, HidNode, Verdict,
};
use maschine_mk3::engine::{Engine, Outputs};
use maschine_mk3::gui::{report, route, save_fields, Page};
use maschine_mk3::hid::{ControlState, PadEvent, PadHit};
use maschine_mk3::ipc::{
    bad_request, outcome, preset_entries, reply_in, report_controls, report_pads, socket_path,
    Call, Event, Outbound, Reply, Request,
};
use maschine_mk3::leds::Leds;
use maschine_mk3::midi::Msg;
use maschine_mk3::namemap::NameMap;
use maschine_mk3::preset::{Entry, Origin};
use maschine_mk3::profile::{Control, ControlKind, DeviceInfo, Layout, Profile, Reports};

fn bare_profile() -> Profile {
    Profile {
        device: DeviceInfo { name: "Maschine MK3".to_string(), vendor: 0x17cc, product: 0x1600 },
        report: Reports { controls: 0x01, pads: 0x02, led_banks: vec![(0x80, 62), (0x81, 41)] },
        layout: Layout {
            buttons_offset: 0,
            button_bits: 80,
            encoder_offset: 10,
            knobs_offset: 11,
            knobs: 8,
            knob_max: 999,
            analog_offset: 27,
            analog_count: 7,
            pads: 16,
            pad_max: 4095,
            pad_led_base: 87,
            strip_led_base: 62,
            strip_leds: 25,
            strip_led_reversed: false,
            strip_analog: 1,
            strip_max: 1024,
            pedal_analog_base: 4,
            panel_width: 32f32.to_bits(),
            panel_height: 30f32.to_bits(),
        },
        control: NameMap::new(),
    }
}

fn play() -> Control {
    Control {
        kind: ControlKind::Button,
        label: "PLAY".to_string(),
        index: 0,
        bit: Some(45),
        led: Some(41),
        led_colour: None,
        group: None,
        x: None,
        y: None,
        w: None,
        h: None,
    }
}

fn args(v: &[&str]) -> Vec<String> {
    v.iter().map(|s| s.to_string()).collect()
}

fn options(v: &[&str]) -> Options {
    match parse_args(&args(v)) {
        Parsed::Run(o) => o,
        _ => panic!("the arguments should be accepted: {v:?}"),
    }
}

#[test]
fn arguments_are_read() {
    let o = options(&["-c", "/x.toml", "--preset", "drums", "--list-ports", "--config"]);
    assert_eq!(o.path, None, "a trailing flag has no value");
    assert_eq!(o.load_preset.as_deref(), Some("drums"));
    assert!(o.list_ports && !o.diagnose);
    let o = options(&["--config", "a", "--save-preset", "-h"]);
    assert_eq!((o.path.as_deref(), o.save_preset.as_deref()), (Some("a"), Some("-h")));
    assert!(matches!(parse_args(&args(&["--diagnose", "--help", "nonsense"])), Parsed::Help));
    match parse_args(&args(&["--wat", "-h"])) {
        Parsed::Unknown(s) => assert_eq!(s, "--wat"),
        _ => panic!("an unknown flag must be refused"),
    }
}

#[test]
fn modes_have_an_order() {
    assert!(matches!(options(&["--diagnose", "--write-default-config"]).mode(), Mode::WriteDefault));
    assert!(matches!(options(&["--list-presets", "--diagnose"]).mode(), Mode::Diagnose));
    assert!(matches!(options(&["--save-preset", "x", "--list-presets"]).mode(), Mode::ListPresets));
    assert!(matches!(options(&["--save-preset", "x", "--list-ports"]).mode(), Mode::SavePreset));
    assert!(matches!(options(&["--test-midi", "--list-ports"]).mode(), Mode::ListPorts));
    assert!(matches!(options(&["--test-midi"]).mode(), Mode::TestMidi));
    assert!(matches!(options(&["--preset", "x"]).mode(), Mode::Drive));
}

#[test]
fn presets_are_listed_in_columns() {
    let e = Entry {
        name: "drums".into(),
        description: "pads".into(),
        origin: Origin::User,
        shadows_builtin: true,
    };
    assert_eq!(
        preset_line(&e, &Some("drums".into())),
        format!("* {:<12} {:<24} {}", "drums", "(yours, shadows built-in)", "pads")
    );
    let e = Entry { origin: Origin::Builtin, shadows_builtin: false, ..e };
    assert_eq!(
        preset_line(&e, &None),
        format!("  {:<12} {:<24} {}", "drums", "(built-in)", "pads")
    );
    let e = Entry { origin: Origin::User, name: "a-rather-long-name".into(), ..e };
    assert_eq!(
        preset_line(&e, &Some("drums".into())),
        format!("  {:<12} {:<24} {}", "a-rather-long-name", "(yours)", "pads")
    );
}

#[test]
fn intervals_are_clamped() {
    let mut c = Config::default();
    assert_eq!(led_interval_us(&c), 16_666);
    assert_eq!(display_interval_us(&c), 33_333);
    c.leds.fps = 0;
    c.display.fps = 1000;
    assert_eq!(led_interval_us(&c), 1_000_000);
    assert_eq!(display_interval_us(&c), 16_666);
    c.leds.fps = 1000;
    assert_eq!(led_interval_us(&c), 4_000);
    assert_eq!(pause_us(5_000, 7_000), 5_000);
    assert_eq!(pause_us(50_000, 70_000), 20_000);
    assert_eq!(pause_us(50_000, 3), 1_000);
}

#[test]
fn the_test_pattern_covers_every_channel() {
    assert_eq!(
        test_messages(2),
        vec![
            Msg::NoteOn { ch: 2, note: 62, vel: 100 },
            Msg::NoteOff { ch: 2, note: 62, vel: 0 },
            Msg::Cc { ch: 2, cc: 22, val: 127 },
            Msg::Cc { ch: 2, cc: 22, val: 0 },
        ]
    );
    for ch in 0..16u8 {
        assert_eq!(
            test_line(ch),
            format!(
                "  {:>3}  note {} on/off{:<12} cc {} = 127 then 0",
                ch + 1,
                60 + ch,
                "",
                20 + ch
            )
        );
    }
}

#[test]
fn announcements_are_counted() {
    let ours = (129, 0);
    let mut s = AnnounceState {
        auto_connect: false,
        exclude: vec![],
        connected: vec![(1, 2)],
        subscribers: 0,
    };
    let to = |sender| Connection { sender, dest: (130, 3) };
    assert!(matches!(s.on_announcement(Announcement::Started, ours), AnnounceAction::Nothing));
    s.auto_connect = true;
    assert!(matches!(s.on_announcement(Announcement::Started, ours), AnnounceAction::Rescan));
    assert!(matches!(
        s.on_announcement(Announcement::Subscribed(to((7, 0))), ours),
        AnnounceAction::Nothing
    ));
    assert!(matches!(
        s.on_announcement(Announcement::Subscribed(to(ours)), ours),
        AnnounceAction::Joined((130, 3), 1)
    ));
    assert!(matches!(
        s.on_announcement(Announcement::Unsubscribed(to(ours)), ours),
        AnnounceAction::Left((130, 3), 0)
    ));
    assert!(matches!(
        s.on_announcement(Announcement::Unsubscribed(to(ours)), ours),
        AnnounceAction::Left((130, 3), 0)
    ));
    assert_eq!(s.connected.len(), 1);
    assert!(matches!(s.on_announcement(Announcement::Ended, ours), AnnounceAction::Nothing));
    assert!(s.connected.is_empty());
    assert_eq!(
        auto_connect_exclude(&bare_profile(), &Config::default()),
        vec!["Maschine MK3".to_string(), "Maschine MK3".to_string()]
    );
}

#[test]
fn reports_drive_the_engine_and_the_events() {
    let mut profile = bare_profile();
    profile.control.insert("play".into(), play());
    let mut cfg = Config::default();
    cfg.buttons.insert("play".into(), Binding::Send("cc 1 118".into()));
    let mut engine = Engine::new(profile, cfg);
    let mut leds = Leds::new();
    let mut prev = ControlState::default();
    let (mut out, mut events) = (Vec::new(), Vec::new());
    let mut r = vec![0u8; 42];
    r[0] = 0x01;
    let kind = on_report(&r, true, &mut engine, &mut leds, &mut prev, &mut out, &mut events);
    assert!(matches!(kind, Incoming::Controls));
    assert!(out.is_empty());
    // The starting positions are shown: eight knobs and the encoder.
    assert_eq!(events.len(), 9);
    assert!(matches!(events[0], Event::Knob { knob: 0, value: 64 }));
    assert!(matches!(events[8], Event::Encoder { value: 64 }));
    events.clear();

    r[1 + 5] = 1 << 5; // bit 45
    let kind = on_report(&r, true, &mut engine, &mut leds, &mut prev, &mut out, &mut events);
    assert!(matches!(kind, Incoming::Controls));
    assert_eq!(out, vec![Msg::Cc { ch: 0, cc: 118, val: 127 }]);
    assert!(matches!(events[..], [Event::Button { bit: 45, down: true }]));
    assert!(prev.button(45));

    let pads = [0x02u8, 0, 0x17, 0xd0, 0, 0, 0];
    let (mut out, mut events) = (Vec::new(), Vec::new());
    let kind = on_report(&pads, true, &mut engine, &mut leds, &mut prev, &mut out, &mut events);
    assert!(matches!(kind, Incoming::Pads));
    assert_eq!(out, vec![Msg::NoteOn { ch: 9, note: 48, vel: 127 }]);
    assert!(matches!(events[..], [Event::Pad { pad: 0, down: true, value: 127 }]));

    let (mut out, mut events) = (Vec::new(), Vec::new());
    on_report(&pads, false, &mut engine, &mut leds, &mut prev, &mut out, &mut events);
    assert_eq!(out.len(), 2);
    assert!(events.is_empty(), "nobody is listening");
    for other in [&[][..], &[0x03, 1, 2], &[0x01, 1, 2]] {
        let kind = on_report(other, true, &mut engine, &mut leds, &mut prev, &mut out, &mut events);
        assert!(matches!(kind, Incoming::Nothing), "{other:?}");
    }
    assert_eq!(out.len(), 2);
}

#[test]
fn only_changes_are_reported() {
    let a = ControlState::default();
    let before = Outputs::default();
    let mut out = Vec::new();
    report_controls(&a, &a, &before, &before, &mut out);
    assert!(out.is_empty());
    let mut b = a;
    b.buttons[0] = 0x81;
    b.buttons[9] = 0x01;
    let mut after = before;
    after.knobs[3] = 9;
    after.encoder = before.encoder + 1;
    after.strip = before.strip + 2;
    report_controls(&a, &b, &before, &after, &mut out);
    assert!(matches!(
        out[..],
        [
            Event::Button { bit: 0, down: true },
            Event::Button { bit: 7, down: true },
            Event::Button { bit: 72, down: true },
            Event::Knob { knob: 3, value: 9 },
            Event::Encoder { .. },
            Event::Strip { .. },
        ]
    ));
    out.clear();
    report_controls(&b, &a, &before, &before, &mut out);
    assert_eq!(out.len(), 3);
    assert!(matches!(out[0], Event::Button { bit: 0, down: false }));
}

#[test]
fn pads_are_reported_as_played() {
    let p = Config::default().pads;
    let mut out = Vec::new();
    let hit = |event, value| PadHit { pad: 4, event, value };
    report_pads(
        &p,
        &[
            hit(PadEvent::NoteOn, 1000),
            hit(PadEvent::Aftertouch, 4095),
            hit(PadEvent::PressOff, 77),
        ],
        &mut out,
    );
    assert!(matches!(
        out[..],
        [
            Event::Pad { pad: 4, down: true, value: 64 },
            Event::Pad { pad: 4, down: true, value: 127 },
            Event::Pad { pad: 4, down: false, value: 0 },
        ]
    ));
}

#[test]
fn requests_are_routed() {
    use_route(Request::Ping, |c| matches!(c, Call::Answer(Reply::Pong { version }) if version == "1.2"));
    use_route(Request::GetConfig, |c| matches!(c, Call::ReadConfig));
    use_route(Request::GetProfile, |c| matches!(c, Call::ReadProfile));
    use_route(Request::SetConfig { toml: "x".into() }, |c| matches!(c, Call::Apply(t) if t == "x"));
    use_route(Request::ListPresets, |c| matches!(c, Call::Presets(Request::ListPresets)));
    use_route(Request::DeletePreset { name: "n".into() }, |c| {
        matches!(c, Call::Presets(Request::DeletePreset { name }) if name == "n")
    });
}

fn use_route(req: Request, want: impl Fn(&Call) -> bool) {
    assert!(want(&maschine_mk3::ipc::route(req, "1.2")));
}

#[test]
fn replies_carry_the_outcome() {
    assert!(matches!(outcome(Ok(())), Reply::Done));
    assert!(matches!(outcome(Err("no".into())), Reply::Error { message } if message == "no"));
    assert!(matches!(bad_request("eof"), Reply::Error { message } if message == "bad request: eof"));
    assert!(reply_in(Outbound::Event(Event::Strip { value: 1 })).is_none());
    assert!(matches!(reply_in(Outbound::Reply(Reply::Done)), Some(Reply::Done)));
    assert_eq!(socket_path(&Some("/run/user/1".into()), "/tmp"), "/run/user/1/maschine-mk3.sock");
    assert_eq!(socket_path(&None, "/tmp"), "/tmp/maschine-mk3.sock");
    let v = preset_entries(&vec![Entry {
        name: "a".into(),
        description: "b".into(),
        origin: Origin::Builtin,
        shadows_builtin: false,
    }]);
    assert_eq!((v[0].name.as_str(), v[0].description.as_str(), v[0].builtin), ("a", "b", true));
}

#[test]
fn pages_are_routed() {
    assert!(matches!(route("GET", "/"), Page::Index));
    assert!(matches!(route("GET", "/?x=/api/state"), Page::Index));
    assert!(matches!(route("GET", "/api/state?now"), Page::State));
    assert!(matches!(route("POST", "/api/config"), Page::SetConfig));
    assert!(matches!(route("POST", "/api/preset/load"), Page::LoadPreset));
    assert!(matches!(route("POST", "/api/preset/save"), Page::SavePreset));
    assert!(matches!(route("GET", "/api/config"), Page::NotFound));
    assert!(matches!(route("POST", ""), Page::NotFound));
    assert_eq!(save_fields(" kit \n for\nme "), ("kit".into(), "for\nme".into()));
    assert_eq!(save_fields("kit"), ("kit".into(), "".into()));
    assert_eq!(report(Ok(()), "applied"), (200, "applied".into()));
    assert_eq!(report(Err("bad".into()), "applied"), (400, "bad".into()));
}

fn fine(v: &Verdict) -> &str {
    match v {
        Verdict::Fine(s) => s,
        _ => panic!("expected a clean result"),
    }
}

fn warn(v: &Verdict) -> (&str, &str) {
    match v {
        Verdict::Warn(a, b) => (a, b),
        _ => panic!("expected a note"),
    }
}

fn bad(v: &Verdict) -> (&str, &str) {
    match v {
        Verdict::Bad(a, b) => (a, b),
        _ => panic!("expected a failure"),
    }
}

#[test]
fn verdicts_are_shown_and_counted() {
    let a = Verdict::Fine("d".into());
    let b = Verdict::Warn("d".into(), "f".into());
    let c = Verdict::Bad("d".into(), "f".into());
    assert_eq!(show("T", &a), "  ok    T\n        d");
    assert_eq!(show("T", &b), "  note  T\n        d\n        f");
    assert_eq!(show("T", &c), "  FAIL  T\n        d\n        -> f");
    assert_eq!(summary(&vec![]), ("Everything checks out.".into(), true));
    let v = vec![b, a];
    assert_eq!(summary(&v), ("0 problem(s), 1 note(s).".into(), true));
    let v = vec![c, Verdict::Warn("".into(), "".into()), Verdict::Bad("".into(), "".into())];
    assert_eq!(summary(&v), ("2 problem(s), 1 note(s).".into(), false));
}

#[test]
fn hardware_checks() {
    assert!(usb_matches("17cc\n", " 1600"));
    assert!(usb_matches("17CC", "1600"));
    assert!(!usb_matches("17cc", "1601"));
    assert_eq!(fine(&usb(true)), "17cc:1600 is present");
    assert_eq!(bad(&usb(false)).0, "no 17cc:1600 on the USB bus");
    assert_eq!(fine(&hid(&HidNode::Open("/dev/hidraw3".into()))), "/dev/hidraw3 is readable and writable");
    assert_eq!(bad(&hid(&HidNode::Missing("gone".into()))).0, "gone");
    assert_eq!(
        bad(&hid(&HidNode::Refused("/dev/hidraw3".into(), "denied".into()))).0,
        "/dev/hidraw3 cannot be opened: denied"
    );
    assert_eq!(fine(&display(&None)), "USB interface 5 claimed; the screens will work");
    assert_eq!(
        warn(&display(&Some("Resource busy".into()))).0,
        "USB interface 5 is held by something else"
    );
    assert_eq!(warn(&display(&Some("nope".into()))).0, "cannot claim USB interface 5: nope");
    assert!(fine(&audio(" 1 [MK3]: USB-Audio - Maschine MK3\n")).starts_with("the sound card is bound"));
    assert_eq!(warn(&audio("")).0, "the MK3 sound card is not in /proc/asound/cards");
    assert_eq!(fine(&realtime(Some(95))), "rtprio limit is 95, so SCHED_FIFO is available");
    assert_eq!(fine(&realtime(Some(20))), "rtprio limit is 20, so SCHED_FIFO is available");
    assert_eq!(warn(&realtime(Some(19))).0, "rtprio limit is 19");
    assert_eq!(warn(&realtime(None)), ("could not read the rtprio limit", ""));
}

#[test]
fn midi_checks() {
    let text = "Client info\n\
                Client 129 : \"Maschine MK3\" [User]\n  \
                Port   0 : \"Controller Out\" (R-e-)\n    \
                Connecting To: 130:0, 131:1\n  \
                Port   1 : \"Controller In\" (-We-)\n    \
                Connecting To: 9:9\n\
                Client 130 : \"x\"\n    \
                Connecting To: 8:8\n";
    assert_eq!(fine(&midi_port(text)), "the driver's output port exists");
    assert_eq!(bad(&midi_port("")).0, "the ALSA sequencer is not available");
    assert_eq!(warn(&midi_port("x")).0, "no 'Controller Out' port; the driver may not be running");
    assert_eq!(fine(&subscribers(text)), "subscribed: 130:0, 131:1");
    assert_eq!(warn(&subscribers("")).0, "the driver is not running");
    assert_eq!(
        warn(&subscribers("  Port 0 : \"Controller Out\"\n")).0,
        "nothing is subscribed to the output port"
    );
    assert_eq!(warn(&pipewire(&None)).0, "pw-link not found, so PipeWire could not be checked");
    assert_eq!(
        warn(&pipewire(&Some("a\nb".into()))).0,
        "the output port is not on the PipeWire graph"
    );
    assert_eq!(
        fine(&pipewire(&Some("x\n  Maschine MK3:Controller Out \n".into()))),
        "bridged to JACK as \"Maschine MK3:Controller Out\"\n        \
         A JACK host still has to be connected to it -- use qpwgraph, or:\n        \
         pw-link \"Maschine MK3:Controller Out\" \"YOUR-HOST:MIDI Input 1\""
    );
}

#[test]
fn file_checks() {
    let mut profile = bare_profile();
    profile.control.insert("play".into(), play());
    let path = "/c.toml";
    assert_eq!(
        warn(&files(path, &None, &ConfigFile::Absent, &Ok(profile.clone()))).0,
        "/c.toml does not exist yet; profile: built in"
    );
    assert_eq!(
        bad(&files(path, &None, &ConfigFile::Broken("e".into()), &Ok(profile.clone()))).0,
        "e"
    );
    let mut cfg = Config::default();
    assert_eq!(
        bad(&files(path, &None, &ConfigFile::Loaded(cfg.clone()), &Err("p".into()))),
        ("p", "correct the device profile")
    );
    cfg.buttons.insert("play".into(), Binding::Send("cc 1 1".into()));
    assert_eq!(
        fine(&files(path, &Some("/p.toml".into()), &ConfigFile::Loaded(cfg.clone()), &Ok(profile.clone()))),
        "/c.toml valid; 1 of 1 buttons send something; profile: /p.toml"
    );
    cfg.buttons.insert("play".into(), Binding::Send("none".into()));
    assert_eq!(
        fine(&files(path, &None, &ConfigFile::Loaded(cfg.clone()), &Ok(profile.clone()))),
        "/c.toml valid; 0 of 1 buttons send something; profile: built in"
    );
    cfg.buttons.insert("zzzzzz".into(), Binding::Send("none".into()));
    assert_eq!(
        bad(&files(path, &None, &ConfigFile::Loaded(cfg), &Ok(profile))).0,
        "buttons.zzzzzz: no control called that on this device"
    );
}
