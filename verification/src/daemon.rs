//! What the driver daemon decides: its command line, what it does with a report, and who it
//! connects to.
use crate::config::{maybe_view, word_at, Config};
use crate::engine::{controls, lights, pads, step, Engine};
use crate::hid::{hits_from, parse_pads, ControlState, PadHit, CONTROL_LEN};
use crate::ipc::{control_events_of, pad_events_of, report_controls, report_pads, Event};
use crate::leds::Leds;
use crate::midi::Msg;
use crate::preset::{Entry, Origin};
use crate::profile::Profile;
use crate::text::{dec, flush_right, left_aligned, push_dec, push_left, push_right, same, views};
use vstd::prelude::*;

verus! {

// The command line.

/// What the command line asks for.
pub struct Options {
    /// The config file, where one is given.
    pub path: Option<String>,
    pub write_default: bool,
    pub list_ports: bool,
    pub diagnose: bool,
    pub test_midi: bool,
    pub list_presets: bool,
    /// The preset to load.
    pub load_preset: Option<String>,
    /// The name to save the current config under.
    pub save_preset: Option<String>,
}

/// What [`Options`] says.
pub struct OptionsView {
    pub path: Option<Seq<char>>,
    pub write_default: bool,
    pub list_ports: bool,
    pub diagnose: bool,
    pub test_midi: bool,
    pub list_presets: bool,
    pub load_preset: Option<Seq<char>>,
    pub save_preset: Option<Seq<char>>,
}

impl View for Options {
    type V = OptionsView;

    open spec fn view(&self) -> OptionsView {
        OptionsView {
            path: maybe_view(self.path),
            write_default: self.write_default,
            list_ports: self.list_ports,
            diagnose: self.diagnose,
            test_midi: self.test_midi,
            list_presets: self.list_presets,
            load_preset: maybe_view(self.load_preset),
            save_preset: maybe_view(self.save_preset),
        }
    }
}

/// How a command line was read.
pub enum Parsed {
    /// To be run with these options.
    Run(Options),
    /// Help was asked for.
    Help,
    /// This argument is not known.
    Unknown(String),
}

/// How a command line reads, as a model.
pub enum ParsedView {
    Run(OptionsView),
    Help,
    Unknown(Seq<char>),
}

impl View for Parsed {
    type V = ParsedView;

    open spec fn view(&self) -> ParsedView {
        match *self {
            Parsed::Run(o) => ParsedView::Run(o@),
            Parsed::Help => ParsedView::Help,
            Parsed::Unknown(a) => ParsedView::Unknown(a@),
        }
    }
}

pub open spec fn no_options() -> OptionsView {
    OptionsView {
        path: None,
        write_default: false,
        list_ports: false,
        diagnose: false,
        test_midi: false,
        list_presets: false,
        load_preset: None,
        save_preset: None,
    }
}

/// How the arguments from `i` on read, after `o`. An option that takes a value takes the next
/// argument, or none where there is none; the first request for help, or the first argument that
/// is not known, ends the reading.
pub open spec fn read_args(args: Seq<Seq<char>>, i: int, o: OptionsView) -> ParsedView
    decreases
            (if i < args.len() {
                args.len() - i
            } else {
                0
            }),
{
    if i < 0 || i >= args.len() {
        ParsedView::Run(o)
    } else {
        let a = args[i];
        if a == "-c"@ || a == "--config"@ {
            read_args(args, i + 2, OptionsView { path: word_at(args, i + 1), ..o })
        } else if a == "--write-default-config"@ {
            read_args(args, i + 1, OptionsView { write_default: true, ..o })
        } else if a == "--list-ports"@ {
            read_args(args, i + 1, OptionsView { list_ports: true, ..o })
        } else if a == "--diagnose"@ {
            read_args(args, i + 1, OptionsView { diagnose: true, ..o })
        } else if a == "--test-midi"@ {
            read_args(args, i + 1, OptionsView { test_midi: true, ..o })
        } else if a == "--list-presets"@ {
            read_args(args, i + 1, OptionsView { list_presets: true, ..o })
        } else if a == "--preset"@ {
            read_args(args, i + 2, OptionsView { load_preset: word_at(args, i + 1), ..o })
        } else if a == "--save-preset"@ {
            read_args(args, i + 2, OptionsView { save_preset: word_at(args, i + 1), ..o })
        } else if a == "-h"@ || a == "--help"@ {
            ParsedView::Help
        } else {
            ParsedView::Unknown(a)
        }
    }
}

fn arg_at(args: &Vec<String>, i: usize) -> (r: Option<String>)
    ensures
        maybe_view(r) == word_at(views(args@), i as int),
{
    if i < args.len() {
        assert(views(args@)[i as int] == args@[i as int]@);
        Some(args[i].clone())
    } else {
        None
    }
}

/// Reads the arguments that follow the program's name.
pub fn parse_args(args: &Vec<String>) -> (r: Parsed)
    ensures
        r@ == read_args(views(args@), 0, no_options()),
{
    let ghost all = views(args@);
    let mut o = Options {
        path: None,
        write_default: false,
        list_ports: false,
        diagnose: false,
        test_midi: false,
        list_presets: false,
        load_preset: None,
        save_preset: None,
    };
    let mut i: usize = 0;
    while i < args.len()
        invariant
            all == views(args@),
            all.len() == args@.len(),
            read_args(all, i as int, o@) == read_args(all, 0, no_options()),
        decreases args@.len() - i,
    {
        assert(all[i as int] == args@[i as int]@);
        let a = args[i].as_str();
        if same(a, "-c") || same(a, "--config") {
            o.path = arg_at(args, i + 1);
            if i + 1 >= args.len() {
                assert(read_args(all, i + 2, o@) == ParsedView::Run(o@));
                return Parsed::Run(o);
            }
            i += 2;
        } else if same(a, "--write-default-config") {
            o.write_default = true;
            i += 1;
        } else if same(a, "--list-ports") {
            o.list_ports = true;
            i += 1;
        } else if same(a, "--diagnose") {
            o.diagnose = true;
            i += 1;
        } else if same(a, "--test-midi") {
            o.test_midi = true;
            i += 1;
        } else if same(a, "--list-presets") {
            o.list_presets = true;
            i += 1;
        } else if same(a, "--preset") {
            o.load_preset = arg_at(args, i + 1);
            if i + 1 >= args.len() {
                assert(read_args(all, i + 2, o@) == ParsedView::Run(o@));
                return Parsed::Run(o);
            }
            i += 2;
        } else if same(a, "--save-preset") {
            o.save_preset = arg_at(args, i + 1);
            if i + 1 >= args.len() {
                assert(read_args(all, i + 2, o@) == ParsedView::Run(o@));
                return Parsed::Run(o);
            }
            i += 2;
        } else if same(a, "-h") || same(a, "--help") {
            return Parsed::Help;
        } else {
            return Parsed::Unknown(args[i].clone());
        }
    }
    Parsed::Run(o)
}

/// What the driver was started to do.
#[derive(Debug, Clone, Copy, PartialEq, Eq, Structural)]
pub enum Mode {
    WriteDefault,
    Diagnose,
    ListPresets,
    SavePreset,
    ListPorts,
    TestMidi,
    Drive,
}

/// What a command line with several requests does: the first of these that it asks for.
pub open spec fn mode_of(o: OptionsView) -> Mode {
    if o.write_default {
        Mode::WriteDefault
    } else if o.diagnose {
        Mode::Diagnose
    } else if o.list_presets {
        Mode::ListPresets
    } else if o.save_preset is Some {
        Mode::SavePreset
    } else if o.list_ports {
        Mode::ListPorts
    } else if o.test_midi {
        Mode::TestMidi
    } else {
        Mode::Drive
    }
}

impl Options {
    /// What the driver was started to do.
    pub fn mode(&self) -> (r: Mode)
        ensures
            r == mode_of(self@),
    {
        if self.write_default {
            Mode::WriteDefault
        } else if self.diagnose {
            Mode::Diagnose
        } else if self.list_presets {
            Mode::ListPresets
        } else if self.save_preset.is_some() {
            Mode::SavePreset
        } else if self.list_ports {
            Mode::ListPorts
        } else if self.test_midi {
            Mode::TestMidi
        } else {
            Mode::Drive
        }
    }
}

/// Where a listed preset came from, in words.
pub open spec fn source_text(origin: Origin, shadows: bool) -> Seq<char> {
    match origin {
        Origin::Builtin => "(built-in)"@,
        Origin::User => if shadows {
            "(yours, shadows built-in)"@
        } else {
            "(yours)"@
        },
    }
}

/// The line of a listed preset: a star for the active one, the name, the source, the description.
pub open spec fn preset_line_of(e: Entry, active: Option<Seq<char>>) -> Seq<char> {
    (if active == Some(e.name@) {
        "*"@
    } else {
        " "@
    }) + " "@ + left_aligned(e.name@, 12) + " "@ + left_aligned(
        source_text(e.origin, e.shadows_builtin),
        24,
    ) + " "@ + e.description@
}

/// The line of a listed preset.
pub fn preset_line(e: &Entry, active: &Option<String>) -> (r: String)
    ensures
        r@ == preset_line_of(*e, maybe_view(*active)),
{
    let mut s = String::new();
    let here = match active {
        Some(a) => same(a.as_str(), e.name.as_str()),
        None => false,
    };
    if here {
        s.append("*");
    } else {
        s.append(" ");
    }
    s.append(" ");
    push_left(&mut s, e.name.as_str(), 12);
    s.append(" ");
    let source = match e.origin {
        Origin::Builtin => "(built-in)",
        Origin::User => if e.shadows_builtin {
            "(yours, shadows built-in)"
        } else {
            "(yours)"
        },
    };
    push_left(&mut s, source, 24);
    s.append(" ");
    s.append(e.description.as_str());
    assert(s@ =~= preset_line_of(*e, maybe_view(*active)));
    s
}

// Reports from the device.

/// The kinds of report that the device sends.
#[derive(Debug, Clone, Copy, PartialEq, Eq, Structural)]
pub enum Incoming {
    /// A report of all controls.
    Controls,
    /// A report of pad events.
    Pads,
    /// Nothing that is acted on: another report, an empty one, or one cut short.
    Nothing,
}

/// What a report is, with its id in front.
pub open spec fn incoming(r: Seq<u8>) -> Incoming {
    if r.len() == 0 {
        Incoming::Nothing
    } else if r[0] == 0x01 && r.len() - 1 >= CONTROL_LEN {
        Incoming::Controls
    } else if r[0] == 0x02 && hits_from(r.skip(1), 0).len() > 0 {
        Incoming::Pads
    } else {
        Incoming::Nothing
    }
}

/// `r` without its first byte.
fn payload(r: &[u8]) -> (p: Vec<u8>)
    requires
        r@.len() > 0,
    ensures
        p@ == r@.skip(1),
{
    let mut p: Vec<u8> = Vec::new();
    let mut i: usize = 1;
    while i < r.len()
        invariant
            1 <= i <= r@.len(),
            p@ =~= r@.subrange(1, i as int),
        decreases r@.len() - i,
    {
        p.push(r[i]);
        i += 1;
    }
    assert(p@ =~= r@.skip(1));
    p
}

/// Runs one report through the engine: the messages to send go to `out`, and what changed to
/// `events` where somebody is listening. `prev` is the controls' report before.
pub fn on_report(
    r: &[u8],
    listening: bool,
    engine: &mut Engine,
    leds: &mut Leds,
    prev: &mut ControlState,
    out: &mut Vec<Msg>,
    events: &mut Vec<Event>,
) -> (kind: Incoming)
    requires
        old(engine).wf(),
    ensures
        final(engine).wf(),
        kind == incoming(r@),
        lights(*old(leds), *final(leds), final(leds).lamps()),
        match kind {
            Incoming::Controls => {
                &&& final(prev).reads(r@.skip(1))
                &&& step(*final(engine), *final(leds), final(out)@) == controls(
                    step(*old(engine), *old(leds), old(out)@),
                    *final(prev),
                )
                &&& final(events)@ == old(events)@ + (if listening {
                    control_events_of(
                        *old(prev),
                        *final(prev),
                        old(engine)@.outputs,
                        final(engine)@.outputs,
                    )
                } else {
                    Seq::empty()
                })
            },
            Incoming::Pads => {
                let hits = hits_from(r@.skip(1), 0);
                &&& *final(prev) == *old(prev)
                &&& step(*final(engine), *final(leds), final(out)@) == pads(
                    step(*old(engine), *old(leds), old(out)@),
                    hits,
                )
                &&& final(events)@ == old(events)@ + (if listening {
                    pad_events_of(final(engine)@.cfg.pads, hits)
                } else {
                    Seq::empty()
                })
            },
            Incoming::Nothing => {
                &&& *final(prev) == *old(prev)
                &&& *final(engine) == *old(engine)
                &&& *final(leds) == *old(leds)
                &&& final(out)@ == old(out)@
                &&& final(events)@ == old(events)@
            },
        },
{
    if r.len() == 0 {
        return Incoming::Nothing;
    }
    if r[0] == 0x01 {
        let p = payload(r);
        match ControlState::parse(&p) {
            Some(s) => {
                let before = *engine.outputs();
                engine.on_controls(&s, leds, out);
                let after = *engine.outputs();
                // Serialising costs more than the whole mapping step, so it only happens when
                // someone is actually listening.
                if listening {
                    report_controls(prev, &s, &before, &after, events);
                }
                *prev = s;
                assert(events@ =~= old(events)@ + (if listening {
                    control_events_of(*old(prev), s, old(engine)@.outputs, engine@.outputs)
                } else {
                    Seq::empty()
                }));
                Incoming::Controls
            },
            None => Incoming::Nothing,
        }
    } else if r[0] == 0x02 {
        let p = payload(r);
        let mut hits: Vec<PadHit> = Vec::new();
        parse_pads(&p, &mut hits);
        if hits.len() == 0 {
            return Incoming::Nothing;
        }
        engine.on_pads(&hits, leds, out);
        if listening {
            report_pads(&engine.config().pads, &hits, events);
        }
        assert(events@ =~= old(events)@ + (if listening {
            pad_events_of(engine@.cfg.pads, hits@)
        } else {
            Seq::empty()
        }));
        Incoming::Pads
    } else {
        Incoming::Nothing
    }
}

// Pace.

/// Microseconds between two updates at `fps`, which counts as at least 1 and at most `cap`.
pub open spec fn interval(fps: u32, cap: u32) -> int {
    1_000_000int / (if fps < 1 {
        1int
    } else if fps > cap {
        cap as int
    } else {
        fps as int
    })
}

fn interval_us(fps: u32, cap: u32) -> (r: u64)
    requires
        cap >= 1,
    ensures
        r == interval(fps, cap),
{
    let f: u32 = if fps < 1 {
        1
    } else if fps > cap {
        cap
    } else {
        fps
    };
    1_000_000 / f as u64
}

/// Microseconds between two LED reports: at most 250 a second.
pub fn led_interval_us(cfg: &Config) -> (r: u64)
    ensures
        r == interval(cfg.leds.fps, 250),
        4_000 <= r <= 1_000_000,
{
    proof {
        lemma_interval(cfg.leds.fps, 250);
    }
    interval_us(cfg.leds.fps, 250)
}

/// Microseconds between two redraws of the screens: at most 60 a second.
pub fn display_interval_us(cfg: &Config) -> (r: u64)
    ensures
        r == interval(cfg.display.fps, 60),
        16_666 <= r <= 1_000_000,
{
    proof {
        lemma_interval(cfg.display.fps, 60);
    }
    interval_us(cfg.display.fps, 60)
}

proof fn lemma_interval(fps: u32, cap: u32)
    requires
        cap >= 1,
    ensures
        1_000_000int / (cap as int) <= interval(fps, cap) <= 1_000_000,
{
    let f = if fps < 1 {
        1int
    } else if fps > cap {
        cap as int
    } else {
        fps as int
    };
    vstd::arithmetic::div_mod::lemma_div_is_ordered_by_denominator(1_000_000, f, cap as int);
    vstd::arithmetic::div_mod::lemma_div_is_ordered_by_denominator(1_000_000, 1, f);
}

/// How long the surface sleeps until the next update is due: at least one millisecond and at most
/// twenty.
pub fn pause_us(until_led: u64, until_display: u64) -> (r: u64)
    ensures
        r == crate::config::clamp_int(
            crate::config::min_int(until_led as int, until_display as int),
            1_000,
            20_000,
        ),
{
    let next: u64 = if until_led <= until_display {
        until_led
    } else {
        until_display
    };
    if next < 1_000 {
        1_000
    } else if next > 20_000 {
        20_000
    } else {
        next
    }
}

// The test pattern.

/// The four messages of the test pattern on a channel: a note on and off, then a control up and
/// down.
pub open spec fn test_messages_of(ch: u8) -> Seq<Msg> {
    seq![
        Msg::NoteOn { ch, note: (60 + ch) as u8, vel: 100 },
        Msg::NoteOff { ch, note: (60 + ch) as u8, vel: 0 },
        Msg::Cc { ch, cc: (20 + ch) as u8, val: 127 },
        Msg::Cc { ch, cc: (20 + ch) as u8, val: 0 },
    ]
}

/// The messages of the test pattern on a channel, counted from 0.
///
/// When a host lists the device and receives nothing, the question is whether the driver is
/// sending, whether anything is subscribed, or whether the host is filtering by channel. Pressing a
/// pad answers none of those on its own; this does, because what is sent is known in advance and
/// covers every channel.
pub fn test_messages(ch: u8) -> (r: Vec<Msg>)
    requires
        ch < 16,
    ensures
        r@ == test_messages_of(ch),
        forall|i: int| 0 <= i < 4 ==> (#[trigger] r@[i]).in_range(),
{
    let mut v: Vec<Msg> = Vec::new();
    v.push(Msg::NoteOn { ch, note: 60 + ch, vel: 100 });
    v.push(Msg::NoteOff { ch, note: 60 + ch, vel: 0 });
    v.push(Msg::Cc { ch, cc: 20 + ch, val: 127 });
    v.push(Msg::Cc { ch, cc: 20 + ch, val: 0 });
    assert(v@ =~= test_messages_of(ch));
    v
}

/// The line that says what is sent on a channel.
pub open spec fn test_line_of(ch: u8) -> Seq<char> {
    "  "@ + flush_right(dec((ch + 1) as nat), 3) + "  note "@ + dec((60 + ch) as nat) + " on/off"@
        + left_aligned(Seq::empty(), 12) + " cc "@ + dec((20 + ch) as nat) + " = 127 then 0"@
}

/// The line that says what is sent on a channel.
pub fn test_line(ch: u8) -> (r: String)
    requires
        ch < 16,
    ensures
        r@ == test_line_of(ch),
{
    let mut s = "  ".to_owned();
    let n = crate::text::decimal(ch as u64 + 1);
    push_right(&mut s, n.as_str(), 3);
    s.append("  note ");
    push_dec(&mut s, 60 + ch as u64);
    s.append(" on/off");
    let empty = String::new();
    push_left(&mut s, empty.as_str(), 12);
    s.append(" cc ");
    push_dec(&mut s, 20 + ch as u64);
    s.append(" = 127 then 0");
    assert(empty@ =~= Seq::empty());
    assert(s@ =~= test_line_of(ch));
    s
}

// Announcements of the sequencer.

/// The two ends of a subscription, as client and port.
#[derive(Debug, Clone, Copy, PartialEq, Eq)]
pub struct Connection {
    pub sender: (i32, i32),
    pub dest: (i32, i32),
}

/// What the sequencer announces.
#[derive(Debug, Clone, Copy, PartialEq, Eq)]
pub enum Announcement {
    /// A client or a port appeared.
    Started,
    /// A client or a port went away.
    Ended,
    /// A subscription was made.
    Subscribed(Connection),
    /// A subscription was ended.
    Unsubscribed(Connection),
    /// Anything else.
    Other,
}

/// What the driver knows about who is listening.
pub struct AnnounceState {
    /// Whether to subscribe hosts as they appear.
    pub auto_connect: bool,
    /// Client names never connected automatically: ours, and the hardware's own DIN MIDI port.
    pub exclude: Vec<String>,
    /// Destinations already dealt with, so a rescan is quiet.
    pub connected: Vec<(i32, i32)>,
    /// How many subscriptions our output currently has.
    pub subscribers: usize,
}

/// What an announcement asks of the driver.
#[derive(Debug, Clone, Copy, PartialEq, Eq)]
pub enum AnnounceAction {
    Nothing,
    /// Look for hosts to connect to.
    Rescan,
    /// Say that this address is now listening, and how many are.
    Joined((i32, i32), usize),
    /// Say that this address stopped listening, and how many are left.
    Left((i32, i32), usize),
}

/// What an announcement asks of the driver, and how many then listen. `ours` is our output port.
pub open spec fn announced(
    auto_connect: bool,
    subscribers: usize,
    ev: Announcement,
    ours: (i32, i32),
) -> (AnnounceAction, usize) {
    match ev {
        Announcement::Started => if auto_connect {
            (AnnounceAction::Rescan, subscribers)
        } else {
            (AnnounceAction::Nothing, subscribers)
        },
        Announcement::Subscribed(c) => if c.sender == ours {
            let n = if subscribers < usize::MAX {
                (subscribers + 1) as usize
            } else {
                subscribers
            };
            (AnnounceAction::Joined(c.dest, n), n)
        } else {
            (AnnounceAction::Nothing, subscribers)
        },
        Announcement::Unsubscribed(c) => if c.sender == ours {
            let n = if subscribers > 0 {
                (subscribers - 1) as usize
            } else {
                0
            };
            (AnnounceAction::Left(c.dest, n), n)
        } else {
            (AnnounceAction::Nothing, subscribers)
        },
        _ => (AnnounceAction::Nothing, subscribers),
    }
}

impl AnnounceState {
    /// Act on a sequencer announcement.
    ///
    /// New ports get connected when `auto_connect` is on; subscriptions to our output are reported
    /// either way, because "who is listening" is the question nobody can answer from outside. What
    /// went away is forgotten, so the same client reconnecting is picked up again.
    pub fn on_announcement(&mut self, ev: Announcement, ours: (i32, i32)) -> (r: AnnounceAction)
        ensures
            (r, final(self).subscribers) == announced(
                old(self).auto_connect,
                old(self).subscribers,
                ev,
                ours,
            ),
            final(self).auto_connect == old(self).auto_connect,
            final(self).exclude == old(self).exclude,
            final(self).connected@ == if ev is Ended {
                Seq::empty()
            } else {
                old(self).connected@
            },
    {
        match ev {
            Announcement::Started => {
                if self.auto_connect {
                    AnnounceAction::Rescan
                } else {
                    AnnounceAction::Nothing
                }
            },
            Announcement::Ended => {
                self.connected.clear();
                AnnounceAction::Nothing
            },
            Announcement::Subscribed(c) => {
                if c.sender.0 != ours.0 || c.sender.1 != ours.1 {
                    return AnnounceAction::Nothing;
                }
                self.subscribers = self.subscribers.saturating_add(1);
                AnnounceAction::Joined(c.dest, self.subscribers)
            },
            Announcement::Unsubscribed(c) => {
                if c.sender.0 != ours.0 || c.sender.1 != ours.1 {
                    return AnnounceAction::Nothing;
                }
                self.subscribers = self.subscribers.saturating_sub(1);
                AnnounceAction::Left(c.dest, self.subscribers)
            },
            Announcement::Other => AnnounceAction::Nothing,
        }
    }
}

/// Client names auto-connect must leave alone: the hardware's and our own.
pub fn auto_connect_exclude(profile: &Profile, cfg: &Config) -> (r: Vec<String>)
    ensures
        views(r@) == seq![profile.device.name@, cfg.general.client_name@],
{
    let mut v: Vec<String> = Vec::new();
    v.push(profile.device.name.clone());
    v.push(cfg.general.client_name.clone());
    assert(views(v@) =~= seq![profile.device.name@, cfg.general.client_name@]);
    v
}

/// Nobody but subscribers of our own output is counted, and one that joins and leaves again
/// changes nothing.
pub proof fn law_subscribers_are_counted(n: usize, c: Connection, ours: (i32, i32), auto_on: bool)
    requires
        n < usize::MAX,
    ensures
        ({
            let (_, up) = announced(auto_on, n, Announcement::Subscribed(c), ours);
            let (_, down) = announced(auto_on, up, Announcement::Unsubscribed(c), ours);
            &&& down == n
            &&& c.sender != ours ==> up == n
        }),
{
}

// What the driver promises to whoever starts it.

proof fn lemma_args_shift(a: Seq<Seq<char>>, b: Seq<Seq<char>>, i: int, o: OptionsView)
    requires
        0 <= i,
    ensures
        read_args(a + b, a.len() + i, o) == read_args(b, i, o),
    decreases
            (if i < b.len() {
                b.len() - i
            } else {
                0
            }),
{
    let c = a + b;
    if i < b.len() {
        assert(c[a.len() + i] == b[i]);
        assert(word_at(c, a.len() + i + 1) == word_at(b, i + 1));
        let w = word_at(b, i + 1);
        lemma_args_shift(a, b, i + 2, OptionsView { path: w, ..o });
        lemma_args_shift(a, b, i + 1, OptionsView { write_default: true, ..o });
        lemma_args_shift(a, b, i + 1, OptionsView { list_ports: true, ..o });
        lemma_args_shift(a, b, i + 1, OptionsView { diagnose: true, ..o });
        lemma_args_shift(a, b, i + 1, OptionsView { test_midi: true, ..o });
        lemma_args_shift(a, b, i + 1, OptionsView { list_presets: true, ..o });
        lemma_args_shift(a, b, i + 2, OptionsView { load_preset: w, ..o });
        lemma_args_shift(a, b, i + 2, OptionsView { save_preset: w, ..o });
    }
}

proof fn lemma_option_names_differ()
    ensures
        "-c"@.len() == 2 && "-h"@.len() == 2 && "-c"@ != "-h"@,
        "--config"@.len() == 8 && "--preset"@.len() == 8 && "--config"@ != "--preset"@,
        "--write-default-config"@.len() == 22,
        "--list-ports"@.len() == 12,
        "--diagnose"@.len() == 10,
        "--test-midi"@.len() == 11,
        "--list-presets"@.len() == 14,
        "--save-preset"@.len() == 13,
        "--help"@.len() == 6,
{
    reveal_strlit("-c");
    reveal_strlit("-h");
    reveal_strlit("--config");
    reveal_strlit("--preset");
    reveal_strlit("--write-default-config");
    reveal_strlit("--list-ports");
    reveal_strlit("--diagnose");
    reveal_strlit("--test-midi");
    reveal_strlit("--list-presets");
    reveal_strlit("--save-preset");
    reveal_strlit("--help");
    assert("-c"@[1] != "-h"@[1]);
    assert("--config"@[2] != "--preset"@[2]);
}

/// Every option sets what it is named for, and the rest of the command line is read after it. One
/// that takes a value takes the argument behind it.
pub proof fn law_options_set_what_they_name(
    value: Seq<char>,
    rest: Seq<Seq<char>>,
    o: OptionsView,
)
    ensures
        read_args(seq!["-c"@, value] + rest, 0, o) == read_args(
            rest,
            0,
            (OptionsView { path: Some(value), ..o }),
        ),
        read_args(seq!["--config"@, value] + rest, 0, o) == read_args(
            rest,
            0,
            (OptionsView { path: Some(value), ..o }),
        ),
        read_args(seq!["--preset"@, value] + rest, 0, o) == read_args(
            rest,
            0,
            (OptionsView { load_preset: Some(value), ..o }),
        ),
        read_args(seq!["--save-preset"@, value] + rest, 0, o) == read_args(
            rest,
            0,
            (OptionsView { save_preset: Some(value), ..o }),
        ),
        read_args(seq!["--write-default-config"@] + rest, 0, o) == read_args(
            rest,
            0,
            (OptionsView { write_default: true, ..o }),
        ),
        read_args(seq!["--list-ports"@] + rest, 0, o) == read_args(
            rest,
            0,
            (OptionsView { list_ports: true, ..o }),
        ),
        read_args(seq!["--diagnose"@] + rest, 0, o) == read_args(
            rest,
            0,
            (OptionsView { diagnose: true, ..o }),
        ),
        read_args(seq!["--test-midi"@] + rest, 0, o) == read_args(
            rest,
            0,
            (OptionsView { test_midi: true, ..o }),
        ),
        read_args(seq!["--list-presets"@] + rest, 0, o) == read_args(
            rest,
            0,
            (OptionsView { list_presets: true, ..o }),
        ),
        read_args(Seq::empty(), 0, o) == ParsedView::Run(o),
{
    lemma_option_names_differ();
    let p = OptionsView { path: Some(value), ..o };
    lemma_args_shift(seq!["-c"@, value], rest, 0, p);
    lemma_args_shift(seq!["--config"@, value], rest, 0, p);
    lemma_args_shift(
        seq!["--preset"@, value],
        rest,
        0,
        OptionsView { load_preset: Some(value), ..o },
    );
    lemma_args_shift(
        seq!["--save-preset"@, value],
        rest,
        0,
        OptionsView { save_preset: Some(value), ..o },
    );
    lemma_args_shift(
        seq!["--write-default-config"@],
        rest,
        0,
        OptionsView { write_default: true, ..o },
    );
    lemma_args_shift(seq!["--list-ports"@], rest, 0, OptionsView { list_ports: true, ..o });
    lemma_args_shift(seq!["--diagnose"@], rest, 0, OptionsView { diagnose: true, ..o });
    lemma_args_shift(seq!["--test-midi"@], rest, 0, OptionsView { test_midi: true, ..o });
    lemma_args_shift(seq!["--list-presets"@], rest, 0, OptionsView { list_presets: true, ..o });
}

/// Help is given where it is asked for, and an argument that is no option is named.
pub proof fn law_help_and_unknown_arguments_end_the_reading(
    a: Seq<char>,
    rest: Seq<Seq<char>>,
    o: OptionsView,
)
    ensures
        read_args(seq!["-h"@] + rest, 0, o) is Help,
        read_args(seq!["--help"@] + rest, 0, o) is Help,
        a.len() > 22 || a.len() < 2 ==> read_args(seq![a] + rest, 0, o) == ParsedView::Unknown(a),
{
    lemma_option_names_differ();
}

/// The driver drives where nothing else is asked of it, and a command line with one request does
/// that one. Of several, writing the default config goes before diagnosing, that before listing
/// presets, and so on.
pub proof fn law_one_request_is_carried_out(o: OptionsView)
    ensures
        o.write_default ==> mode_of(o) is WriteDefault,
        o.diagnose && !o.write_default ==> mode_of(o) is Diagnose,
        o.list_presets && !o.write_default && !o.diagnose ==> mode_of(o) is ListPresets,
        o.save_preset is Some && !o.write_default && !o.diagnose && !o.list_presets ==> mode_of(
            o,
        ) is SavePreset,
        o.list_ports && !o.write_default && !o.diagnose && !o.list_presets && o.save_preset is None
            ==> mode_of(o) is ListPorts,
        mode_of(o) is TestMidi ==> o.test_midi,
        mode_of(o) is Drive <==> !(o.write_default || o.diagnose || o.list_presets || o.save_preset
            is Some || o.list_ports || o.test_midi),
{
}

/// A report is told by its first byte, and acted on where it is whole: one of the controls has 41
/// bytes behind it, and one of the pads an event of one of the sixteen.
pub proof fn law_reports_are_told_by_their_first_byte(r: Seq<u8>)
    ensures
        r.len() >= 42 && r[0] == 1 ==> incoming(r) is Controls,
        r.len() >= 4 && r[0] == 2 && r[1] < 16 && r[2] < 0x50 ==> incoming(r) is Pads,
        incoming(r) is Controls ==> r.len() >= 42 && r[0] == 1,
        incoming(r) is Pads ==> r.len() >= 4 && r[0] == 2,
{
    if r.len() > 0 {
        let p = r.skip(1);
        if r.len() >= 4 {
            assert(p[0] == r[1] && p[1] == r[2] && p[2] == r[3]);
        }
    }
}

/// Updates keep their pace: a second has room for as many of them as there are to be, and for no
/// more than the cap.
pub proof fn law_updates_keep_their_pace(fps: u32, cap: u32)
    requires
        1 <= cap <= 1_000_000,
    ensures
        1 <= fps <= cap ==> fps * interval(fps, cap) <= 1_000_000 && 1_000_000 < fps * (interval(
            fps,
            cap,
        ) + 1),
        fps > cap ==> interval(fps, cap) == interval(cap, cap),
        fps == 0 ==> interval(fps, cap) == 1_000_000,
{
    if 1 <= fps <= cap {
        let (f, q) = (fps as int, interval(fps, cap));
        vstd::arithmetic::div_mod::lemma_fundamental_div_mod(1_000_000, f);
        assert(f * (q + 1) == f * q + f) by (nonlinear_arith);
    }
}

/// The test pattern of a channel stays on that channel, ends the note that it starts, and puts the
/// control that it moves back to 0. Every channel has its own note and its own control.
pub proof fn law_the_test_pattern_leaves_nothing_on(ch: u8, other: u8)
    requires
        ch < 16,
        other < 16,
    ensures
        ({
            let m = test_messages_of(ch);
            &&& m.len() == 4
            &&& m[0] matches Msg::NoteOn { ch: c, note, vel } && c == ch && vel > 0 && m[1]
                == Msg::NoteOff { ch, note, vel: 0 }
            &&& m[2] matches Msg::Cc { ch: c, cc, val } && c == ch && val == 127 && m[3] == Msg::Cc {
                ch,
                cc,
                val: 0,
            }
            &&& ch != other ==> m[0]->NoteOn_note != test_messages_of(other)[0]->NoteOn_note
            &&& ch != other ==> m[2]->Cc_cc != test_messages_of(other)[2]->Cc_cc
        }),
{
}

/// Who joins and who leaves our output is said, with how many then listen. What appears is looked at
/// where hosts are to be connected.
pub proof fn law_announcements_say_who_listens(
    auto_on: bool,
    n: usize,
    c: Connection,
    ours: (i32, i32),
)
    requires
        n < usize::MAX,
    ensures
        c.sender == ours ==> announced(auto_on, n, Announcement::Subscribed(c), ours) == (
            AnnounceAction::Joined(c.dest, (n + 1) as usize),
            (n + 1) as usize,
        ),
        c.sender == ours && n > 0 ==> announced(auto_on, n, Announcement::Unsubscribed(c), ours) == (
            AnnounceAction::Left(c.dest, (n - 1) as usize),
            (n - 1) as usize,
        ),
        c.sender != ours ==> announced(auto_on, n, Announcement::Subscribed(c), ours) == (
            AnnounceAction::Nothing,
            n,
        ) && announced(auto_on, n, Announcement::Unsubscribed(c), ours) == (
            AnnounceAction::Nothing,
            n,
        ),
        announced(true, n, Announcement::Started, ours) == (AnnounceAction::Rescan, n),
        announced(false, n, Announcement::Started, ours) == (AnnounceAction::Nothing, n),
        announced(auto_on, n, Announcement::Ended, ours) == (AnnounceAction::Nothing, n),
{
}

/// Where no argument is given nothing is asked for, and the driver runs with the usual config.
pub proof fn law_no_arguments_ask_for_nothing()
    ensures
        read_args(Seq::empty(), 0, no_options()) matches ParsedView::Run(o) && {
            &&& o.path is None && o.load_preset is None && o.save_preset is None
            &&& !o.write_default && !o.list_ports && !o.diagnose && !o.test_midi && !o.list_presets
        },
{
}

} // verus!
