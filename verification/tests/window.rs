use maschine_mk3::config::{Binding, Config};
use maschine_mk3::doc::{
    expand_inline_tables, merge_preserving, save_config, save_profile, Document, DocumentError, Part,
};
use maschine_mk3::ipc::{Event, PresetEntry, Reply};
use maschine_mk3::panel::{
    click, current, current_description, deletable, done_text, importable, look, outcome,
    preset_label, save_as_fields, tip, unreachable_driver, wiring, Deed, Outcome, Panel,
    Selection, Unreachable,
};
use maschine_mk3::namemap::NameMap;
use maschine_mk3::profile::{Control, ControlKind, DeviceInfo, Layout, Profile, Reports};
use maschine_mk3::text::is_quotable;

fn control(kind: ControlKind, index: usize) -> Control {
    Control {
        kind,
        label: "LBL".to_string(),
        index,
        bit: None,
        led: None,
        led_colour: None,
        group: None,
        x: None,
        y: None,
        w: None,
        h: None,
    }
}

fn profile() -> Profile {
    let mut map: NameMap<Control> = NameMap::new();
    let mut play = control(ControlKind::Button, 0);
    play.bit = Some(45);
    map.insert("play".into(), play);
    Profile {
        device: DeviceInfo { name: "x".into(), vendor: 1, product: 2 },
        report: Reports { controls: 1, pads: 2, led_banks: vec![(0x80, 103)] },
        layout: Layout {
            buttons_offset: 0,
            button_bits: 80,
            encoder_offset: 10,
            knobs_offset: 11,
            knobs: 8,
            knob_max: 999,
            analog_offset: 27,
            analog_count: 7,
            pads: 16,
            pad_max: 4095,
            pad_led_base: 87,
            strip_led_base: 62,
            strip_leds: 25,
            strip_led_reversed: false,
            strip_analog: 1,
            strip_max: 1024,
            pedal_analog_base: 4,
            panel_width: 0,
            panel_height: 0,
        },
        control: map,
    }
}

#[test]
fn the_selection_follows_the_hardware() {
    let p = profile();
    let mut panel = Panel::new();
    assert!(matches!(panel.selection, Selection::Nothing));
    assert_eq!(panel.on_event(Event::Button { bit: 45, down: true }, Some(&p)), Some("play".into()));
    assert!(matches!(&panel.selection, Selection::Button(n) if n == "play"));
    assert_eq!(panel.on_event(Event::Button { bit: 44, down: true }, Some(&p)), None);
    assert_eq!(panel.on_event(Event::Button { bit: 45, down: true }, None), None);
    assert_eq!(
        panel.on_event(Event::Pad { pad: 3, down: true, value: 90 }, Some(&p)),
        Some("pad 3".into())
    );
    assert!(matches!(panel.selection, Selection::Pads));
    assert_eq!(panel.pad_values[3], 90);
    assert_eq!(
        panel.on_event(Event::Knob { knob: 0, value: 5 }, Some(&p)),
        Some("knob 1".into())
    );
    assert!(matches!(panel.selection, Selection::Knobs));
    panel.on_event(Event::Pad { pad: 3, down: false, value: 90 }, Some(&p));
    assert!(matches!(panel.selection, Selection::Knobs), "a release selects nothing");
    assert_eq!(panel.pad_values[3], 0);
    panel.follow_hardware = false;
    assert_eq!(panel.on_event(Event::Encoder { value: 7 }, None), Some("encoder".into()));
    assert_eq!(panel.on_event(Event::Strip { value: 8 }, None), Some("touch strip".into()));
    assert!(matches!(panel.selection, Selection::Knobs));
    assert_eq!((panel.encoder_value, panel.strip_value, panel.knob_values[0]), (7, 8, 5));
    assert_eq!(
        panel.on_event(Event::Knob { knob: 12, value: 5 }, None),
        Some("knob 13".into())
    );
    panel.follow_hardware = true;
    panel.on_event(Event::Encoder { value: 1 }, None);
    assert!(matches!(panel.selection, Selection::Encoder));
    panel.on_event(Event::Strip { value: 1 }, None);
    assert!(matches!(panel.selection, Selection::Strip));
}

#[test]
fn levels_and_labels() {
    let mut panel = Panel::new();
    panel.knob_values[7] = 64;
    panel.pad_values[15] = 3;
    panel.encoder_value = 9;
    panel.strip_value = 11;
    assert_eq!(panel.level(&control(ControlKind::Knob, 9)), Some(64));
    assert_eq!(panel.level(&control(ControlKind::Pad, 40)), Some(3));
    assert_eq!(panel.level(&control(ControlKind::Encoder, 0)), Some(9));
    assert_eq!(panel.level(&control(ControlKind::Strip, 0)), Some(11));
    assert_eq!(panel.level(&control(ControlKind::Button, 0)), None);
    assert_eq!(panel.label(&control(ControlKind::Knob, 7)), "LBL\n64");
    assert_eq!(panel.label(&control(ControlKind::Encoder, 0)), "LBL\n9");
    assert_eq!(panel.label(&control(ControlKind::Strip, 0)), "LBL 11");
    assert_eq!(panel.label(&control(ControlKind::Screen, 0)), "");
    assert_eq!(panel.label(&control(ControlKind::Pad, 0)), "LBL");
}

#[test]
fn looks_follow_state() {
    let b = control(ControlKind::Button, 0);
    let sel = Selection::Button("play".into());
    let l = look(&sel, "play", &b, false, true);
    assert!(l.selected && l.bound);
    assert_eq!((l.fill, l.stroke, l.text), ((46, 50, 60), (255, 138, 0), (220, 222, 228)));
    let l = look(&sel, "stop", &b, false, false);
    assert!(!l.selected && !l.bound);
    assert_eq!((l.fill, l.stroke, l.text), ((28, 28, 32), (70, 74, 84), (110, 112, 120)));
    let l = look(&sel, "stop", &b, true, false);
    assert_eq!((l.fill, l.text), ((255, 138, 0), (0, 0, 0)));
    let mut pad = control(ControlKind::Pad, 0);
    pad.led_colour = Some(3);
    let l = look(&Selection::Knobs, "pad", &pad, false, false);
    assert!(l.bound);
    assert_eq!((l.fill, l.stroke), ((38, 42, 52), (120, 90, 60)));
    assert!(look(&Selection::Pads, "pad", &pad, false, false).selected);
    let screen = control(ControlKind::Screen, 0);
    assert_eq!(look(&sel, "play", &screen, false, false).fill, (18, 20, 26));
}

#[test]
fn clicking_selects() {
    assert!(matches!(click("a", ControlKind::Button), Selection::Button(n) if n == "a"));
    assert!(matches!(click("a", ControlKind::Screen), Selection::General));
    assert!(matches!(click("a", ControlKind::Pad), Selection::Pads));
    assert!(matches!(click("a", ControlKind::Knob), Selection::Knobs));
    assert!(matches!(click("a", ControlKind::Encoder), Selection::Encoder));
    assert!(matches!(click("a", ControlKind::Strip), Selection::Strip));
}

#[test]
fn hover_texts() {
    let mut c = control(ControlKind::Button, 0);
    assert_eq!(tip("play", &c, true), "play  no LED");
    assert_eq!(wiring(&c), "bit -  \u{b7}  no LED");
    c.bit = Some(45);
    c.led = Some(41);
    c.led_colour = Some(17);
    assert_eq!(
        tip("play", &c, false),
        "play\nbit 45  LED slot 41\n\nnot bound -- click to give it a MIDI message"
    );
    assert_eq!(wiring(&c), "bit 45  \u{b7}  LED slot 41, colour palette 17");
}

fn entry(name: &str, builtin: bool, shadows: bool) -> PresetEntry {
    PresetEntry {
        name: name.into(),
        description: format!("about {name}"),
        builtin,
        shadows_builtin: shadows,
    }
}

#[test]
fn the_preset_bar() {
    let v = vec![entry("default", true, false), entry("drums", false, true), entry("mine", false, false)];
    assert_eq!(current(&None), "(unsaved)");
    assert_eq!(current(&Some("drums".into())), "drums");
    assert_eq!(preset_label(&v[0]), "default  \u{b7}  built-in");
    assert_eq!(preset_label(&v[1]), "drums  \u{b7}  yours (shadows built-in)");
    assert_eq!(preset_label(&v[2]), "mine  \u{b7}  yours");
    assert_eq!(current_description(&v, "mine"), Some("about mine".into()));
    assert_eq!(current_description(&v, "other"), None);
    assert!(deletable(&v, "drums") && !deletable(&v, "default") && !deletable(&v, "other"));
    assert_eq!(save_as_fields(&v, "mine"), ("mine".into(), "about mine".into()));
    assert_eq!(save_as_fields(&v, "(unsaved)"), ("".into(), "".into()));
    assert_eq!(save_as_fields(&v, "gone"), ("gone".into(), "".into()));
    assert!(importable("a", "x") && !importable("", "x") && !importable("a", " \n"));
    assert_eq!(
        done_text(Deed::Loaded, "a"),
        "loaded `a` (previous config kept as config.toml.prev)"
    );
    assert_eq!(done_text(Deed::Saved, "a"), "saved `a`");
    assert_eq!(done_text(Deed::Deleted, "a"), "deleted `a`");
    assert_eq!(done_text(Deed::Imported, "a"), "imported `a`");
}

#[test]
fn outcomes_and_spawning() {
    assert!(matches!(outcome(Ok(Reply::Done)), Outcome::Done));
    assert!(matches!(outcome(Ok(Reply::Error { message: "m".into() })), Outcome::Refused(m) if m == "m"));
    assert!(matches!(outcome(Ok(Reply::Pong { version: "".into() })), Outcome::Unchanged));
    assert!(matches!(outcome(Err("gone".into())), Outcome::Lost(m) if m == "gone"));
    let mut spawn = true;
    assert!(matches!(unreachable_driver(&mut spawn), Unreachable::Spawn));
    assert!(!spawn);
    assert!(matches!(unreachable_driver(&mut spawn), Unreachable::GiveUp));
}

const FILE: &str = "# about the file\n\n\
    # how the pads play\n\
    [pads] # sixteen of them\n\
    # the channel\n\
    channel = 10 # drums\n\
    notes = [36, 37, \"x\", 38]\n\n\
    [buttons]\n\
    # transport\n\
    play = \"cc 1 118\" # go\n\
    stop = { send = \"cc 1 117\", mode = \"toggle\" }\n\
    rec = \"cc 1 119\"\n";

fn bound(names: &[&str]) -> NameMap<Binding> {
    let mut c = Config::default();
    for n in names {
        c.buttons.insert(n.to_string(), Binding::Send("none".into()));
    }
    c.buttons
}

#[test]
fn saving_keeps_comments_and_brings_settings() {
    let fresh = "leds = { fps = 60, nested = { a = [1, 2] } }\n\
                 [pads]\nchannel = 3\ncurve = \"soft\"\n\
                 [buttons]\nplay = \"note 1 2\"\nstop = { send = \"cc 1 117\", led = \"off\" }\n";
    let out = save_config(FILE, fresh, &bound(&["play", "stop"])).ok().unwrap();
    for kept in [
        "# about the file\n",
        "# how the pads play\n[pads] # sixteen of them\n",
        "# the channel\nchannel = 3 # drums\n",
        "notes = [36, 37, \"x\", 38]\n",
        "# transport\nplay = \"note 1 2\" # go\n",
    ] {
        assert!(out.contains(kept), "{kept:?} is not in:\n{out}");
    }
    assert!(out.contains("curve = \"soft\"\n"), "{out}");
    assert!(!out.contains("rec"), "a binding that is gone is dropped:\n{out}");
    assert!(out.contains("[leds]\nfps = 60\n"), "a new section gets a heading:\n{out}");
    assert!(out.contains("[leds.nested]\na = [1, 2]\n"), "{out}");
    let stop = Document::parse(&out).unwrap();
    assert_eq!(stop.binding_str("stop", Part::Mode), "toggle", "what is not said is left alone");
    assert_eq!(stop.binding_str("stop", Part::Led), "off");

    let out = save_profile(FILE, "[pads]\nchannel = 4\n").ok().unwrap();
    assert!(out.contains("channel = 4 # drums\n") && out.contains("rec = "), "{out}");
    assert_eq!(save_profile(FILE, FILE).ok().unwrap(), FILE, "nothing to change");
}

const DEVICE: &str = "\
# the unit on my desk
[device]
name = \"MK3\"

# transport
[control.play] # the big one
kind = \"button\"
bit = 45 # measured
led = 41

[control.old]
bit = 46

[control.rec]
bit = 47
";

#[test]
fn saved_profiles_have_exactly_their_controls() {
    // `old` was renamed to `new`, and `play` lost its light.
    let fresh = "[device]\nname = \"MK3\"\n[control.play]\nkind = \"button\"\nbit = 45\n\
                 [control.new]\nbit = 46\n[control.rec]\nbit = 47\n";
    let out = save_profile(DEVICE, fresh).unwrap();
    assert!(!out.contains("old") && !out.contains("led"), "{out}");
    assert!(out.contains("# the unit on my desk\n[device]\n"), "{out}");
    assert!(out.contains("# transport\n[control.play] # the big one\n"), "{out}");
    assert!(out.contains("bit = 45 # measured\n"), "{out}");
    assert!(out.contains("[control.new]\nbit = 46\n") && out.contains("[control.rec]\n"), "{out}");
    assert_eq!(save_profile(&out, fresh).unwrap(), out, "once is enough");

    let braces = "[control]\nplay = { kind = \"button\", led = 4, bit = 45 }\nold = { bit = 46 }\n";
    let out = save_profile(braces, "[control]\nplay = { kind = \"button\", bit = 45 }\n").unwrap();
    assert!(out.contains("bit = 45") && !out.contains("led") && !out.contains("old"), "{out}");
}

#[test]
fn what_is_behind_the_last_setting_is_kept() {
    let end = "\n# That was all.\n\n   # Bye.";
    let file = format!("# about\n[pads]\nchannel = 10 # drums{end}");
    let fresh = "[pads]\nchannel = 3\n[control]\nplay = 1\n";
    let comments = |t: &str| t.lines().filter(|l| l.trim_start().starts_with('#')).count();
    for out in [
        save_profile(&file, fresh).unwrap(),
        save_config(&file, fresh, &bound(&[])).unwrap(),
    ] {
        assert!(out.ends_with("\n# That was all.\n\n   # Bye."), "{out}");
        assert!(out.contains("channel = 3 # drums\n") && out.contains("play = 1\n"), "{out}");
        assert_eq!(comments(&out), comments(&file), "{out}");
    }

    let mut d = Document::parse(&file).unwrap();
    assert!(d.set_int("pads", "channel", 4) && d.set_str("pads", "curve", "soft"));
    assert!(d.set_binding("play", "cc 1 2", "momentary", "follow") && d.unbind("stop"));
    d.retain(&bound(&["play"]));
    assert!(d.text().ends_with(end), "{}", d.text());

    // Line ends become plain ones, and a file may be nothing but comments.
    let out = save_config("a = 1\r\n# x\r\n# y\r\n", "a = 2", &bound(&[])).unwrap();
    assert!(out.ends_with("# x\n# y\n"), "{out:?}");
    assert_eq!(save_config("# only this\n", "", &bound(&[])).unwrap(), "# only this\n");
}

#[test]
fn long_rows_of_quotes_are_kept() {
    let mut d = Document::parse("[a]\nx = [\"y\"]\n").unwrap();
    let longest = "'".repeat(255);
    assert!(is_quotable(&longest) && !is_quotable(&"'".repeat(256)));
    assert!(!is_quotable(&format!("it's {} so", "\"".repeat(300))));
    assert!(d.set_str("a", "b", &longest));
    assert_eq!(Document::parse(&d.text()).unwrap().get_str("a", "b"), longest);

    // What was read is written as it was.
    let row = "'".repeat(300);
    let file = format!("# long\n[a]\nx = \"{row}\" # here\n");
    assert_eq!(Document::parse(&file).unwrap().text(), file);
    let fresh = format!("[a]\nx = \"{row}\"\ny = [[\"{row}\"]]\n[b]\nz = {{ q = \"{row}\" }}\n");
    for out in [save_profile(&file, &fresh).unwrap(), save_config(&file, &fresh, &bound(&[])).unwrap()] {
        assert!(out.starts_with(&file), "{out}");
        let d = Document::parse(&out).unwrap();
        assert_eq!(d.get_str("a", "x"), row);
        assert!(out.contains(&format!("y = [[\"{row}\"]]")), "{out}");
        assert!(out.contains(&format!("q = \"{row}\"")), "{out}");
    }
}

#[test]
fn tables_go_on_one_line_within_braces() {
    let out = save_profile("a = { x = 1 }\n", "[[a.t]]\nn = 1\n[[a.t]]\nn = 2\ns = \"q\"\n").unwrap();
    assert_eq!(out, "a = { x = 1 , t = [{ n = 1 }, { n = 2, s = \"q\" }] }\n");
}

#[test]
fn unreadable_texts_are_told_apart() {
    assert!(matches!(save_profile("a =", "a = 1"), Err(DocumentError::Original(_))));
    assert!(matches!(save_profile("a = 1", "a ="), Err(DocumentError::Fresh(e)) if e.contains("TOML")));
    assert!(matches!(save_config("a =", "b =", &bound(&[])), Err(DocumentError::Original(_))));
    assert!(Document::parse("a = 1\na = 2\n").is_err());
}

#[test]
fn items_merge_key_by_key() {
    let item = |text: &str| text.parse::<toml_edit::DocumentMut>().unwrap();
    let mut a = item("x = 1 # one\ny = { z = 2 }\nt = 3\n");
    let b = item("x = 0x10\ny = 5\nnew = { q = 1 }\n[t]\nu = 1\n");
    merge_preserving(a.as_item_mut(), b.as_item());
    let out = a.to_string();
    assert!(out.contains("x = 0x10 # one\n"), "{out}");
    assert!(out.contains("y = 5\n") && out.contains("[new]\nq = 1\n"), "{out}");
    assert!(a["t"].is_table() && a["t"]["u"].as_integer() == Some(1), "{out}");
}

#[test]
fn inline_tables_expand() {
    let d = "a = { b = { c = [1] }, e = \"x\" }\n".parse::<toml_edit::DocumentMut>().unwrap();
    let x = expand_inline_tables(d.as_item());
    assert!(x["a"].is_table() && x["a"]["b"].is_table());
    assert!(x["a"]["b"]["c"].is_array());
    assert_eq!(x["a"]["e"].as_str(), Some("x"));
    assert!(expand_inline_tables(&toml_edit::value(3)).is_integer());
}

#[test]
fn settings_read_back() {
    let mut d = Document::parse(FILE).unwrap();
    assert_eq!(d.get_int("pads", "channel"), 10);
    assert_eq!(d.get_int("pads", "notes"), 0);
    assert_eq!(d.get_int("none", "notes"), 0);
    assert_eq!(d.get_str("buttons", "rec"), "cc 1 119");
    assert_eq!(d.get_str("pads", "channel"), "");
    assert!(d.is_section("pads") && d.is_section("missing"));
    assert!(d.set_int("pads", "channel", 7));
    assert!(d.set_str("pads", "curve", "ha\"rd"));
    assert!(!d.set_int("missing", "x", 1), "a section is not added");
    assert_eq!((d.get_int("pads", "channel"), d.get_str("pads", "curve").as_str()), (7, "ha\"rd"));
    assert_eq!(d.get_ints("pads", "notes"), vec![36, 37, 38]);
    assert!(d.set_int_at("pads", "notes", 2, 99));
    assert!(!d.set_int_at("pads", "notes", 4, 99));
    assert!(!d.set_int_at("pads", "channel", 0, 99));
    assert_eq!(d.get_ints("pads", "notes"), vec![36, 37, 99, 38]);
    let out = d.text();
    assert!(out.contains("# the channel\nchannel = 7\n"), "{out}");
    assert!(!Document::parse("pads = 3\n").unwrap().is_section("pads"));
}

#[test]
fn bindings_are_written_in_their_shortest_form() {
    let mut d = Document::parse(FILE).unwrap();
    assert_eq!(d.binding_str("play", Part::Send), "cc 1 118");
    assert_eq!(d.binding_str("play", Part::Mode), "momentary");
    assert_eq!(d.binding_str("play", Part::Led), "follow");
    assert_eq!(d.binding_str("stop", Part::Mode), "toggle");
    assert_eq!(d.binding_str("missing", Part::Mode), "");
    for (send, mode, led) in
        [("a", "momentary", "follow"), ("b", "toggle", "follow"), ("c", "momentary", "midi"), ("", "x", "y")]
    {
        assert!(d.set_binding("rec", send, mode, led));
        assert_eq!(d.binding_str("rec", Part::Send), send);
        assert_eq!(d.binding_str("rec", Part::Mode), mode);
        assert_eq!(d.binding_str("rec", Part::Led), led);
    }
    assert!(d.set_binding("rec", "cc 1 1", "momentary", "follow"));
    assert!(d.text().contains("rec = \"cc 1 1\"\n"));
    assert!(d.set_binding("rec", "cc 1 1", "momentary", "off"));
    let out = d.text();
    assert!(out.contains("rec = { send = \"cc 1 1\", led = \"off\" }\n"), "{out}");
    assert!(d.unbind("rec"));
    assert_eq!(d.binding_str("rec", Part::Send), "");

    let mut empty = Document::parse("").unwrap();
    assert!(!empty.unbind("x"));
    assert!(empty.set_binding("x", "pc 1 1", "momentary", "follow"));
    assert_eq!(empty.text(), "[buttons]\nx = \"pc 1 1\"\n");
    let mut braces = Document::parse("buttons = { x = \"none\" }\n").unwrap();
    assert!(!braces.set_binding("x", "pc 1 1", "momentary", "follow"));
    assert_eq!(braces.binding_str("x", Part::Send), "none");
    let mut odd = Document::parse("[buttons]\nx = 3\ny = { send = 4 }\n").unwrap();
    assert_eq!(odd.binding_str("x", Part::Send), "none");
    assert_eq!(odd.binding_str("y", Part::Send), "none");
    odd.retain(&bound(&["y"]));
    assert_eq!(odd.text(), "[buttons]\ny = { send = 4 }\n");
}
