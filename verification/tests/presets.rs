use maschine_mk3::midi::{
    build, connect_to_all_hosts, connect_to_matching, describe_addr, destinations, from_alsa,
    is_unsafe_to_autoconnect, CtrlKind, Destination, Msg, NoteKind, SeqClient, SeqEvent, SeqPort,
};
use maschine_mk3::namemap::NameMap;
use maschine_mk3::preset::{
    check_delete, check_name, compose, describe, dir, list, path_of, preset_stem, read,
    strip_header, Origin, PresetFile,
};

#[test]
fn loopbacks_and_the_devices_own_port_are_not_auto_connected() {
    let exclude = vec!["Maschine MK3".to_string()];
    // A hardware loopback would feed our own output straight back in.
    assert!(is_unsafe_to_autoconnect("Midi Through:Midi Through Port-0", &exclude));
    // The controller's own DIN socket: legitimate, but not a default.
    assert!(is_unsafe_to_autoconnect("Maschine MK3:Maschine MK3 MIDI 1", &exclude));
    assert!(is_unsafe_to_autoconnect("System:Announce", &exclude));
    // An actual host is exactly what we want to connect.
    assert!(!is_unsafe_to_autoconnect("REAPER:MIDI Input 1", &exclude));
    assert!(!is_unsafe_to_autoconnect("Bitwig Studio:in", &exclude));
}

#[test]
fn empty_exclusions_exclude_nothing() {
    assert!(!is_unsafe_to_autoconnect("REAPER:in", &["".to_string()]));
    assert!(is_unsafe_to_autoconnect("reaper:in", &["REAPER".to_string()]));
    assert!(!is_unsafe_to_autoconnect("my reaper:in", &["REAPER".to_string()]));
}

#[test]
fn messages_become_events_and_read_back() {
    let on = Msg::NoteOn { ch: 3, note: 60, vel: 99 };
    assert_eq!(
        build(on),
        SeqEvent::Note { kind: NoteKind::Noteon, channel: 3, note: 60, velocity: 99, off_velocity: 0 }
    );
    assert_eq!(from_alsa(build(on)), Some(on));
    let off = Msg::NoteOff { ch: 3, note: 60, vel: 7 };
    assert_eq!(from_alsa(build(off)), Some(off));
    assert_eq!(
        from_alsa(build(Msg::NoteOn { ch: 3, note: 60, vel: 0 })),
        Some(Msg::NoteOff { ch: 3, note: 60, vel: 0 })
    );
    let cc = Msg::Cc { ch: 0, cc: 24, val: 127 };
    assert_eq!(from_alsa(build(cc)), Some(cc));
    assert_eq!(
        build(Msg::PitchBend { ch: 1, val: -8192 }),
        SeqEvent::Ctrl { kind: CtrlKind::Pitchbend, channel: 1, param: 0, value: -8192 }
    );
    assert_eq!(
        build(Msg::PolyAftertouch { ch: 9, note: 40, val: 5 }),
        SeqEvent::Note { kind: NoteKind::Keypress, channel: 9, note: 40, velocity: 5, off_velocity: 0 }
    );
    assert_eq!(
        build(Msg::Program { ch: 9, num: 40 }),
        SeqEvent::Ctrl { kind: CtrlKind::Pgmchange, channel: 9, param: 0, value: 40 }
    );
    assert_eq!(
        build(Msg::ChannelAftertouch { ch: 9, val: 40 }),
        SeqEvent::Ctrl { kind: CtrlKind::Chanpress, channel: 9, param: 0, value: 40 }
    );
    assert_eq!(build(Msg::Start), SeqEvent::Start);
    assert_eq!(from_alsa(SeqEvent::Start), None);
    assert_eq!(
        from_alsa(SeqEvent::Ctrl { kind: CtrlKind::Controller, channel: 2, param: 257, value: -1 }),
        Some(Msg::Cc { ch: 2, cc: 1, val: 255 })
    );
}

fn clients() -> Vec<SeqClient> {
    let port = |port, name: Option<&str>, write, subs_write| SeqPort {
        port,
        name: name.map(str::to_string),
        write,
        subs_write,
    };
    vec![
        SeqClient { client: 0, name: Some("System".into()), ports: vec![port(1, Some("Announce"), true, true)] },
        SeqClient {
            client: 14,
            name: Some("Midi Through".into()),
            ports: vec![port(0, Some("Port-0"), true, true)],
        },
        SeqClient {
            client: 128,
            name: None,
            ports: vec![port(0, Some("in"), true, true), port(1, None, true, true), port(2, Some("x"), true, false)],
        },
        SeqClient { client: 129, name: Some("Ours".into()), ports: vec![port(0, Some("o"), true, true)] },
        SeqClient { client: 130, name: Some("Reaper".into()), ports: vec![port(3, Some("MIDI"), true, true)] },
    ]
}

fn names(d: &[Destination], picked: &[usize]) -> Vec<String> {
    picked.iter().map(|&i| d[i].name.clone()).collect()
}

#[test]
fn destinations_are_named_and_matched() {
    let d = destinations(&clients(), 129);
    let all: Vec<&str> = d.iter().map(|x| x.name.as_str()).collect();
    assert_eq!(all, vec!["Midi Through:Port-0", "?:in", "?:?", "Reaper:MIDI"]);
    assert_eq!((d[3].client, d[3].port), (130, 3));
    assert_eq!(names(&d, &connect_to_matching(&d, &["REAPER".into()])), vec!["Reaper:MIDI"]);
    assert!(connect_to_matching(&d, &["".into()]).is_empty());
    assert_eq!(connect_to_matching(&d, &["mi".into(), "?".into()]), vec![0, 1, 2, 3]);
    assert_eq!(describe_addr(&clients(), 130, 3), "Reaper:MIDI");
    assert_eq!(describe_addr(&clients(), 130, 9), "Reaper");
    assert_eq!(describe_addr(&clients(), 99, 9), "99:9");
    assert_eq!(describe_addr(&clients(), 128, 1), "?:?");
}

#[test]
fn a_rescan_connects_nothing_twice() {
    let d = destinations(&clients(), 129);
    let mut already = vec![(128, 1)];
    let first = connect_to_all_hosts(&d, 129, &mut already, &[]);
    assert_eq!(names(&d, &first), vec!["?:in", "Reaper:MIDI"]);
    assert_eq!(already, vec![(128, 1), (128, 0), (130, 3)]);
    assert!(connect_to_all_hosts(&d, 129, &mut already, &[]).is_empty());
    assert_eq!(already.len(), 3);
}

#[test]
fn names_that_would_escape_the_directory_are_refused() {
    for bad in ["../evil", "a/b", "", "with space", "dot.dot"] {
        assert!(check_name(bad).is_err(), "`{bad}` should be refused");
    }
    for good in ["default", "my-kit", "kit_2"] {
        check_name(good).unwrap();
    }
}

#[test]
fn refused_names_say_why() {
    let why = |s: &str| check_name(s).unwrap_err().message();
    assert_eq!(why(""), "a preset name cannot be empty");
    assert_eq!(why(&"x".repeat(65)), "preset names are limited to 64 characters");
    // The limit counts bytes.
    assert_eq!(why(&"\u{e9}".repeat(33)), "preset names are limited to 64 characters");
    check_name(&"x".repeat(64)).unwrap();
    assert_eq!(
        why("a/b"),
        "preset names may only contain letters, digits, `-` and `_` (got `a/b`)"
    );
    assert!(check_name("caf\u{e9}").is_err());
}

#[test]
fn saving_replaces_the_header_rather_than_stacking_them() {
    let text = "[preset]\nname = \"old\"\ndescription = \"old one\"\n\n[pads]\nchannel = 3\n";
    let body = strip_header(text);
    assert!(!body.contains("[preset]"));
    assert!(body.starts_with("[pads]"));
    assert!(body.contains("channel = 3"));
}

#[test]
fn other_lines_are_kept() {
    let text = "# top\r\n[pads]\nchannel = 3\n  [preset]\nname = \"x\"\n[leds]\nfps = 1";
    assert_eq!(strip_header(text), "# top\r\n[pads]\nchannel = 3\n[leds]\nfps = 1\n");
    assert_eq!(strip_header(""), "");
    assert_eq!(strip_header("\n \n[a]\r\n"), "[a]\r\n");
}

#[test]
fn descriptions_come_from_the_header() {
    assert_eq!(describe("[preset]\ndescription = \"for [drums]\"\n"), "for [drums]");
    assert_eq!(describe("[preset]\nname = \"x\"\n"), "");
    assert_eq!(describe("preset = 3"), "");
    assert_eq!(describe("[preset]\ndescription = 3"), "");
    assert_eq!(describe("not toml ="), "");
}

#[test]
fn saved_presets_describe_themselves() {
    for description in ["plain", "", "with \"quotes\" and \\ slashes", "two\nlines", "it's"] {
        let text = compose("kit", description, "[preset]\nname = \"old\"\n[pads]\nchannel = 3\n").unwrap();
        assert!(text.starts_with("[preset]\nname = \"kit\"\ndescription = "), "{text}");
        assert!(text.ends_with("\n\n[pads]\nchannel = 3\n"), "{text}");
        assert_eq!(describe(&text), description);
    }
    assert!(compose("a b", "", "").is_err());
    let long = "\"".repeat(255);
    assert_eq!(describe(&compose("kit", &long, "").unwrap()), long);
}

#[test]
fn comments_above_the_next_table_are_kept() {
    let text = "[preset]\nname = \"old\"\n\n# Pads\n[pads]\nchannel = 3\n";
    assert_eq!(
        compose("my-kit", "d", text).unwrap(),
        "[preset]\nname = \"my-kit\"\ndescription = \"d\"\n\n# Pads\n[pads]\nchannel = 3\n"
    );
    let text = "# top\n[preset]\n# who\nname = \"old\"\n# A\n\n  # B\n[pads]\n# end\n";
    assert_eq!(strip_header(text), "# top\n# A\n\n  # B\n[pads]\n# end\n");
    assert_eq!(strip_header("[preset]\nname = \"x\"\n# last\n"), "# last\n");
    assert_eq!(strip_header("[preset]\n# a\nname = \"x\"\n"), "");
}

#[test]
fn a_written_header_is_removed() {
    for settings in ["", "# about the pads\r\n\n[pads]\nchannel = 3\r\n", "[pads]\nchannel = 3\n", "[a]\n# [preset] in a comment\n\n[b]\nx = \"\"\n"] {
        let once = compose("kit", "one", settings).unwrap();
        assert_eq!(strip_header(&once), settings);
        let twice = compose("kit", "two", &once).unwrap();
        assert_eq!(strip_header(&twice), settings);
        assert_eq!(describe(&twice), "two");
    }
}

fn file(name: &str, text: &str) -> PresetFile {
    PresetFile { name: name.into(), text: text.into() }
}

#[test]
fn user_files_shadow_built_in_ones() {
    let builtin = [file("default", "[preset]\ndescription = \"shipped\"\n"), file("keys", "")];
    let user = [
        file("zeta", ""),
        file("default", "[preset]\ndescription = \"mine\"\n"),
        file("bad name", ""),
    ];
    let v = list(&user, &builtin);
    let seen: Vec<(&str, &str, Origin, bool)> = v
        .iter()
        .map(|e| (e.name.as_str(), e.description.as_str(), e.origin, e.shadows_builtin))
        .collect();
    assert_eq!(
        seen,
        vec![
            ("default", "mine", Origin::User, true),
            ("keys", "", Origin::Builtin, false),
            ("zeta", "", Origin::User, false),
        ]
    );
}

#[test]
fn presets_are_read_from_the_user_first() {
    let builtin = [file("default", "shipped"), file("keys", "k")];
    let listed = list(&[], &builtin);
    assert_eq!(read("default", Some("mine".into()), &builtin, &listed).unwrap(), "mine");
    assert_eq!(read("default", None, &builtin, &listed).unwrap(), "shipped");
    assert_eq!(
        read("other", None, &builtin, &listed).unwrap_err().message(),
        "no preset called `other`. Available: default, keys"
    );
    assert_eq!(
        read("", None, &builtin, &listed).unwrap_err().message(),
        "a preset name cannot be empty"
    );
    check_delete("default", true, &builtin).unwrap();
    assert_eq!(
        check_delete("default", false, &builtin).unwrap_err().message(),
        "`default` is built in and cannot be deleted"
    );
    assert_eq!(
        check_delete("other", false, &builtin).unwrap_err().message(),
        "no preset called `other`"
    );
    assert!(check_delete("../x", true, &builtin).is_err());
}

#[test]
fn preset_files_live_under_the_config_directory() {
    let d = dir(&Some("/cfg".into()), &None);
    assert_eq!(d, "/cfg/maschine-mk3/presets");
    assert_eq!(path_of(&d, "kit").unwrap(), "/cfg/maschine-mk3/presets/kit.toml");
    assert!(path_of(&d, "../kit").is_err());
    assert_eq!(preset_stem("kit.toml"), Some("kit".to_string()));
    assert_eq!(preset_stem("kit.toml.prev"), None);
    assert_eq!(preset_stem(".toml"), None);
    assert_eq!(preset_stem("a.b.toml"), Some("a.b".to_string()));
    assert_eq!(preset_stem("kit.TOML"), None);
}

#[test]
fn name_maps_stay_sorted() {
    let mut m: NameMap<u8> = NameMap::new();
    m.insert("b".into(), 1);
    m.insert("a".into(), 2);
    m.insert("c".into(), 3);
    m.insert("b".into(), 4);
    assert_eq!(m.len(), 3);
    assert_eq!((m.key(0).as_str(), m.key(1).as_str(), m.key(2).as_str()), ("a", "b", "c"));
    assert_eq!(m.get("b"), Some(&4));
    assert_eq!(m.find("c"), Some(2));
    assert_eq!(m.find("d"), None);
    *m.get_mut("a").unwrap() = 9;
    assert_eq!(*m.value(0), 9);
    assert_eq!(m.remove("b"), Some(4));
    assert_eq!(m.remove("b"), None);
    assert!(!m.contains_key("b") && m.contains_key("c"));
}
