//! MIDI messages, and the sequencer's ports.
//!
//! One client with two ports: an output the DAW subscribes to, and an input the DAW can drive for
//! LED and display feedback. Here is what a message looks like to the sequencer and which of the
//! sequencer's ports are connected to; the ports themselves are opened elsewhere.
use crate::text::{contains, dec_int, has_prefix, occurs, push_dec_int, starts_with};
use vstd::prelude::*;

verus! {

/// A MIDI message the engine wants to emit.
#[derive(Debug, Clone, Copy, PartialEq, Eq, Structural)]
#[allow(inconsistent_fields)]
pub enum Msg {
    /// Note on. `vel` of 0 is sent as a note off, per convention.
    NoteOn { ch: u8, note: u8, vel: u8 },
    /// Note off.
    NoteOff { ch: u8, note: u8, vel: u8 },
    /// Control change.
    Cc { ch: u8, cc: u8, val: u8 },
    /// Polyphonic key pressure.
    PolyAftertouch { ch: u8, note: u8, val: u8 },
    /// Channel pressure.
    ChannelAftertouch { ch: u8, val: u8 },
    /// Program change.
    Program { ch: u8, num: u8 },
    /// Pitch bend, -8192..=8191.
    PitchBend { ch: u8, val: i16 },
    /// Transport start.
    Start,
    /// Transport stop.
    Stop,
    /// Transport continue.
    Continue,
}

impl Msg {
    /// Channel and data bytes are in the ranges that MIDI has for them.
    pub open spec fn in_range(self) -> bool {
        match self {
            Msg::NoteOn { ch, note, vel } => ch < 16 && note < 128 && vel < 128,
            Msg::NoteOff { ch, note, vel } => ch < 16 && note < 128 && vel < 128,
            Msg::Cc { ch, cc, val } => ch < 16 && cc < 128 && val < 128,
            Msg::PolyAftertouch { ch, note, val } => ch < 16 && note < 128 && val < 128,
            Msg::ChannelAftertouch { ch, val } => ch < 16 && val < 128,
            Msg::Program { ch, num } => ch < 16 && num < 128,
            Msg::PitchBend { ch, val } => ch < 16 && -8192 <= val <= 8191,
            _ => true,
        }
    }
}

/// The kinds of sequencer event that carry a note.
#[derive(Debug, Clone, Copy, PartialEq, Eq, Structural)]
pub enum NoteKind {
    Noteon,
    Noteoff,
    Keypress,
}

/// The kinds of sequencer event that carry a controller value.
#[derive(Debug, Clone, Copy, PartialEq, Eq, Structural)]
pub enum CtrlKind {
    Controller,
    Chanpress,
    Pgmchange,
    Pitchbend,
}

/// What a sequencer event carries.
#[derive(Debug, Clone, Copy, PartialEq, Eq, Structural)]
#[allow(inconsistent_fields)]
pub enum SeqEvent {
    Note { kind: NoteKind, channel: u8, note: u8, velocity: u8, off_velocity: u8 },
    Ctrl { kind: CtrlKind, channel: u8, param: u32, value: i32 },
    Start,
    Stop,
    Continue,
    /// Anything else.
    Other,
}

/// The event of a message.
pub open spec fn event_of(m: Msg) -> SeqEvent {
    match m {
        Msg::NoteOn { ch, note, vel } => if vel == 0 {
            SeqEvent::Note {
                kind: NoteKind::Noteoff,
                channel: ch,
                note,
                velocity: 0,
                off_velocity: 0,
            }
        } else {
            SeqEvent::Note {
                kind: NoteKind::Noteon,
                channel: ch,
                note,
                velocity: vel,
                off_velocity: 0,
            }
        },
        Msg::NoteOff { ch, note, vel } => SeqEvent::Note {
            kind: NoteKind::Noteoff,
            channel: ch,
            note,
            velocity: 0,
            off_velocity: vel,
        },
        Msg::Cc { ch, cc, val } => SeqEvent::Ctrl {
            kind: CtrlKind::Controller,
            channel: ch,
            param: cc as u32,
            value: val as i32,
        },
        Msg::PolyAftertouch { ch, note, val } => SeqEvent::Note {
            kind: NoteKind::Keypress,
            channel: ch,
            note,
            velocity: val,
            off_velocity: 0,
        },
        Msg::ChannelAftertouch { ch, val } => SeqEvent::Ctrl {
            kind: CtrlKind::Chanpress,
            channel: ch,
            param: 0,
            value: val as i32,
        },
        Msg::Program { ch, num } => SeqEvent::Ctrl {
            kind: CtrlKind::Pgmchange,
            channel: ch,
            param: 0,
            value: num as i32,
        },
        Msg::PitchBend { ch, val } => SeqEvent::Ctrl {
            kind: CtrlKind::Pitchbend,
            channel: ch,
            param: 0,
            value: val as i32,
        },
        Msg::Start => SeqEvent::Start,
        Msg::Stop => SeqEvent::Stop,
        Msg::Continue => SeqEvent::Continue,
    }
}

/// The sequencer event for a message.
pub fn build(m: Msg) -> (r: SeqEvent)
    ensures
        r == event_of(m),
{
    match m {
        Msg::NoteOn { ch, note, vel } => {
            if vel == 0 {
                SeqEvent::Note {
                    kind: NoteKind::Noteoff,
                    channel: ch,
                    note,
                    velocity: 0,
                    off_velocity: 0,
                }
            } else {
                SeqEvent::Note {
                    kind: NoteKind::Noteon,
                    channel: ch,
                    note,
                    velocity: vel,
                    off_velocity: 0,
                }
            }
        },
        Msg::NoteOff { ch, note, vel } => SeqEvent::Note {
            kind: NoteKind::Noteoff,
            channel: ch,
            note,
            velocity: 0,
            off_velocity: vel,
        },
        Msg::Cc { ch, cc, val } => SeqEvent::Ctrl {
            kind: CtrlKind::Controller,
            channel: ch,
            param: cc as u32,
            value: val as i32,
        },
        Msg::PolyAftertouch { ch, note, val } => SeqEvent::Note {
            kind: NoteKind::Keypress,
            channel: ch,
            note,
            velocity: val,
            off_velocity: 0,
        },
        Msg::ChannelAftertouch { ch, val } => SeqEvent::Ctrl {
            kind: CtrlKind::Chanpress,
            channel: ch,
            param: 0,
            value: val as i32,
        },
        Msg::Program { ch, num } => SeqEvent::Ctrl {
            kind: CtrlKind::Pgmchange,
            channel: ch,
            param: 0,
            value: num as i32,
        },
        Msg::PitchBend { ch, val } => SeqEvent::Ctrl {
            kind: CtrlKind::Pitchbend,
            channel: ch,
            param: 0,
            value: val as i32,
        },
        Msg::Start => SeqEvent::Start,
        Msg::Stop => SeqEvent::Stop,
        Msg::Continue => SeqEvent::Continue,
    }
}

/// The message of an event that came in: notes and control changes, nothing else.
pub open spec fn msg_of(ev: SeqEvent) -> Option<Msg> {
    match ev {
        SeqEvent::Note { kind: NoteKind::Noteon, channel, note, velocity, .. } => Some(
            Msg::NoteOn { ch: channel, note, vel: velocity },
        ),
        SeqEvent::Note { kind: NoteKind::Noteoff, channel, note, off_velocity, .. } => Some(
            Msg::NoteOff { ch: channel, note, vel: off_velocity },
        ),
        SeqEvent::Ctrl { kind: CtrlKind::Controller, channel, param, value } => Some(
            Msg::Cc { ch: channel, cc: param as u8, val: value as u8 },
        ),
        _ => None,
    }
}

/// Read what a host sent us. Controller numbers and values keep their low eight bits.
pub fn from_alsa(ev: SeqEvent) -> (r: Option<Msg>)
    ensures
        r == msg_of(ev),
{
    match ev {
        SeqEvent::Note { kind: NoteKind::Noteon, channel, note, velocity, .. } => Some(
            Msg::NoteOn { ch: channel, note, vel: velocity },
        ),
        SeqEvent::Note { kind: NoteKind::Noteoff, channel, note, off_velocity, .. } => Some(
            Msg::NoteOff { ch: channel, note, vel: off_velocity },
        ),
        SeqEvent::Ctrl { kind: CtrlKind::Controller, channel, param, value } => Some(
            Msg::Cc {
                ch: channel,
                cc: #[verifier::truncate] (param as u8),
                val: #[verifier::truncate] (value as u8),
            },
        ),
        _ => None,
    }
}

/// Notes and control changes come back from the sequencer as they were sent, a note on of
/// velocity 0 as the note off that it stands for.
pub proof fn law_messages_read_back(m: Msg)
    requires
        m is NoteOn || m is NoteOff || m is Cc,
    ensures
        msg_of(event_of(m)) == (match m {
            Msg::NoteOn { ch, note, vel } if vel == 0 => Some(Msg::NoteOff { ch, note, vel: 0 }),
            _ => Some(m),
        }),
{
}

// Which ports to connect to.

/// One port of a sequencer client.
pub struct SeqPort {
    pub port: i32,
    /// Its name, where the sequencer gives one.
    pub name: Option<String>,
    /// Whether it can be written to.
    pub write: bool,
    /// Whether it can be subscribed to for writing.
    pub subs_write: bool,
}

/// A sequencer client with its ports.
pub struct SeqClient {
    pub client: i32,
    /// Its name, where the sequencer gives one.
    pub name: Option<String>,
    pub ports: Vec<SeqPort>,
}

/// A port that could receive what we send.
pub struct Destination {
    pub client: i32,
    pub port: i32,
    /// `client:port`, in names.
    pub name: String,
}

/// What a [`Destination`] says.
pub struct DestinationView {
    pub client: i32,
    pub port: i32,
    pub name: Seq<char>,
}

impl View for Destination {
    type V = DestinationView;

    open spec fn view(&self) -> DestinationView {
        DestinationView { client: self.client, port: self.port, name: self.name@ }
    }
}

pub open spec fn destination_views(v: Seq<Destination>) -> Seq<DestinationView> {
    v.map_values(|d: Destination| d@)
}

/// A name, or a question mark in its place.
pub open spec fn shown(name: Option<String>) -> Seq<char> {
    match name {
        Some(n) => n@,
        None => "?"@,
    }
}

fn show(name: &Option<String>) -> (r: String)
    ensures
        r@ == shown(*name),
{
    match name {
        Some(n) => n.clone(),
        None => "?".to_owned(),
    }
}

/// `client:port`, in names.
pub open spec fn port_name(client: SeqClient, port: SeqPort) -> Seq<char> {
    shown(client.name) + ":"@ + shown(port.name)
}

fn name_port(client: &SeqClient, port: &SeqPort) -> (r: String)
    ensures
        r@ == port_name(*client, *port),
{
    let mut s = show(&client.name);
    s.append(":");
    let p = show(&port.name);
    s.append(p.as_str());
    s
}

/// The destinations among the first `n` ports of a client.
pub open spec fn ports_to(client: SeqClient, n: int) -> Seq<DestinationView>
    decreases n,
{
    if n <= 0 {
        Seq::empty()
    } else {
        let p = client.ports@[n - 1];
        let rest = ports_to(client, n - 1);
        if p.write && p.subs_write {
            rest.push(
                DestinationView { client: client.client, port: p.port, name: port_name(client, p) },
            )
        } else {
            rest
        }
    }
}

/// The destinations among the first `n` clients: every port that can be subscribed to for
/// writing, of every client but our own and the system's.
pub open spec fn clients_to(clients: Seq<SeqClient>, own: i32, n: int) -> Seq<DestinationView>
    decreases n,
{
    if n <= 0 {
        Seq::empty()
    } else {
        let c = clients[n - 1];
        let rest = clients_to(clients, own, n - 1);
        if c.client == own || c.client == 0 {
            rest
        } else {
            rest + ports_to(c, c.ports@.len() as int)
        }
    }
}

/// Every sequencer port that could receive what we send.
///
/// Some hosts list a port without ever subscribing to it, which looks exactly like a driver that
/// is not transmitting. Printing the candidates makes the difference visible.
pub fn destinations(clients: &[SeqClient], own: i32) -> (r: Vec<Destination>)
    ensures
        destination_views(r@) == clients_to(clients@, own, clients@.len() as int),
{
    let mut out: Vec<Destination> = Vec::new();
    let mut i: usize = 0;
    while i < clients.len()
        invariant
            i <= clients@.len(),
            destination_views(out@) =~= clients_to(clients@, own, i as int),
        decreases clients@.len() - i,
    {
        let c = &clients[i];
        if c.client != own && c.client != 0 {
            let ghost before = destination_views(out@);
            let mut j: usize = 0;
            while j < c.ports.len()
                invariant
                    j <= c.ports@.len(),
                    destination_views(out@) =~= before + ports_to(*c, j as int),
                decreases c.ports@.len() - j,
            {
                let p = &c.ports[j];
                if p.write && p.subs_write {
                    let name = name_port(c, p);
                    let ghost prior = out@;
                    out.push(Destination { client: c.client, port: p.port, name });
                    assert(destination_views(out@) =~= destination_views(prior).push(
                        out@.last()@,
                    ));
                }
                j += 1;
            }
        }
        i += 1;
    }
    out
}

/// Name a `client:port` for logging, falling back to the numbers: the names of both, the client's
/// alone where it has no such port, and the numbers where there is no such client.
pub open spec fn described(clients: Seq<SeqClient>, client: i32, port: i32) -> Seq<char>
    decreases clients.len(),
{
    if clients.len() == 0 {
        dec_int(client as int) + ":"@ + dec_int(port as int)
    } else if clients[0].client != client {
        described(clients.skip(1), client, port)
    } else {
        described_port(clients[0], clients[0].ports@, port)
    }
}

pub open spec fn described_port(client: SeqClient, ports: Seq<SeqPort>, port: i32) -> Seq<char>
    decreases ports.len(),
{
    if ports.len() == 0 {
        shown(client.name)
    } else if ports[0].port == port {
        port_name(client, ports[0])
    } else {
        described_port(client, ports.skip(1), port)
    }
}

/// Name a `client:port` for logging, falling back to the numbers.
pub fn describe_addr(clients: &[SeqClient], client: i32, port: i32) -> (r: String)
    ensures
        r@ == described(clients@, client, port),
{
    let mut i: usize = 0;
    assert(clients@.skip(0) =~= clients@);
    while i < clients.len()
        invariant
            i <= clients@.len(),
            described(clients@.skip(i as int), client, port) == described(clients@, client, port),
        decreases clients@.len() - i,
    {
        let c = &clients[i];
        assert(clients@.skip(i as int)[0] == *c);
        assert(clients@.skip(i as int).skip(1) =~= clients@.skip(i as int + 1));
        if c.client == client {
            let mut j: usize = 0;
            assert(c.ports@.skip(0) =~= c.ports@);
            while j < c.ports.len()
                invariant
                    j <= c.ports@.len(),
                    described_port(*c, c.ports@.skip(j as int), port) == described(
                        clients@,
                        client,
                        port,
                    ),
                decreases c.ports@.len() - j,
            {
                let p = &c.ports[j];
                assert(c.ports@.skip(j as int)[0] == *p);
                assert(c.ports@.skip(j as int).skip(1) =~= c.ports@.skip(j as int + 1));
                if p.port == port {
                    return name_port(c, p);
                }
                j += 1;
            }
            return show(&c.name);
        }
        i += 1;
    }
    let mut s = String::new();
    push_dec_int(&mut s, client as i64);
    s.append(":");
    push_dec_int(&mut s, port as i64);
    assert(s@ =~= dec_int(client as int) + ":"@ + dec_int(port as int));
    s
}

/// What `str::to_lowercase` makes of a string.
pub uninterp spec fn lowercase(s: Seq<char>) -> Seq<char>;

/// `str::to_lowercase` depends on the characters of the string alone. Which lower-case
/// characters Unicode gives for them is not stated.
pub assume_specification[ str::to_lowercase ](s: &str) -> (r: String)
    ensures
        r@ == lowercase(s@),
;

/// The lower-case forms of the names that are not empty, in order.
pub open spec fn lowered(names: Seq<String>) -> Seq<Seq<char>>
    decreases names.len(),
{
    if names.len() == 0 {
        Seq::empty()
    } else {
        let rest = lowered(names.drop_last());
        if names.last()@.len() == 0 {
            rest
        } else {
            rest.push(lowercase(names.last()@))
        }
    }
}

fn lower_all(names: &[String]) -> (r: Vec<String>)
    ensures
        crate::text::views(r@) == lowered(names@),
{
    let mut out: Vec<String> = Vec::new();
    let mut i: usize = 0;
    assert(names@.take(0) =~= Seq::empty());
    while i < names.len()
        invariant
            i <= names@.len(),
            crate::text::views(out@) =~= lowered(names@.take(i as int)),
        decreases names@.len() - i,
    {
        assert(names@.take(i as int + 1).drop_last() =~= names@.take(i as int));
        if !names[i].as_str().is_empty() {
            let ghost prior = out@;
            out.push(names[i].to_lowercase());
            assert(crate::text::views(out@) =~= crate::text::views(prior).push(out@.last()@));
        }
        i += 1;
    }
    assert(names@.take(names@.len() as int) =~= names@);
    out
}

/// Whether one of `patterns` occurs in `name`.
pub open spec fn any_occurs(name: Seq<char>, patterns: Seq<Seq<char>>) -> bool {
    exists|i: int| 0 <= i < patterns.len() && occurs(name, #[trigger] patterns[i])
}

/// Whether `name` begins with one of `prefixes`.
pub open spec fn any_prefix(name: Seq<char>, prefixes: Seq<Seq<char>>) -> bool {
    exists|i: int| 0 <= i < prefixes.len() && has_prefix(name, #[trigger] prefixes[i])
}

/// Whether one of `patterns` occurs in `name`, both in lower case already.
pub fn lowered_matches(name: &str, patterns: &[String]) -> (r: bool)
    ensures
        r == any_occurs(name@, crate::text::views(patterns@)),
{
    let ghost all = crate::text::views(patterns@);
    let mut i: usize = 0;
    while i < patterns.len()
        invariant
            i <= patterns@.len(),
            all == crate::text::views(patterns@),
            forall|k: int| 0 <= k < i ==> !occurs(name@, #[trigger] all[k]),
        decreases patterns@.len() - i,
    {
        assert(all[i as int] == patterns@[i as int]@);
        if contains(name, patterns[i].as_str()) {
            return true;
        }
        i += 1;
    }
    false
}

/// Whether a name that is in lower case already must not be connected to automatically.
pub open spec fn unsafe_lowered(name: Seq<char>, prefixes: Seq<Seq<char>>) -> bool {
    ||| occurs(name, "midi through"@)
    ||| has_prefix(name, "system:"@)
    ||| occurs(name, "announce"@)
    ||| any_prefix(name, prefixes)
}

/// Whether a name that is in lower case already must not be connected to automatically: a
/// loopback, the system client, or a name with one of `prefixes`.
pub fn is_unsafe_lowered(name: &str, prefixes: &[String]) -> (r: bool)
    ensures
        r == unsafe_lowered(name@, crate::text::views(prefixes@)),
{
    if contains(name, "midi through") || starts_with(name, "system:") || contains(name, "announce") {
        return true;
    }
    let ghost all = crate::text::views(prefixes@);
    let mut i: usize = 0;
    while i < prefixes.len()
        invariant
            i <= prefixes@.len(),
            all == crate::text::views(prefixes@),
            forall|k: int| 0 <= k < i ==> !has_prefix(name@, #[trigger] all[k]),
        decreases prefixes@.len() - i,
    {
        assert(all[i as int] == prefixes@[i as int]@);
        if starts_with(name, prefixes[i].as_str()) {
            return true;
        }
        i += 1;
    }
    false
}

/// Names that must never be connected to automatically.
///
/// `Midi Through` loops whatever it is sent straight back, so wiring our output to it while our
/// input is also connected builds a feedback loop. The system client is not a MIDI destination at
/// all.
///
/// `exclude` carries the controller's own name, which keeps the surface off the hardware's DIN
/// output. Sending every button press out of the physical MIDI socket is a legitimate thing to
/// want and a surprising thing to get without asking.
pub fn is_unsafe_to_autoconnect(name: &str, exclude: &[String]) -> (r: bool)
    ensures
        r == unsafe_lowered(lowercase(name@), lowered(exclude@)),
{
    let l = name.to_lowercase();
    let prefixes = lower_all(exclude);
    is_unsafe_lowered(l.as_str(), &prefixes)
}

/// The places in `dests` of the destinations whose names match one of `patterns`, of the first
/// `n`.
pub open spec fn matching_to(
    dests: Seq<Destination>,
    patterns: Seq<Seq<char>>,
    n: int,
) -> Seq<usize>
    decreases n,
{
    if n <= 0 {
        Seq::empty()
    } else {
        let rest = matching_to(dests, patterns, n - 1);
        if any_occurs(lowercase(dests[n - 1].name@), patterns) {
            rest.push((n - 1) as usize)
        } else {
            rest
        }
    }
}

/// Which destinations to subscribe: the places of those whose name contains one of `patterns`.
///
/// Matching is case-insensitive and on a substring, so `"REAPER"` is enough. An empty pattern
/// matches nothing.
pub fn connect_to_matching(dests: &[Destination], patterns: &[String]) -> (r: Vec<usize>)
    ensures
        r@ == matching_to(dests@, lowered(patterns@), dests@.len() as int),
{
    let lower = lower_all(patterns);
    let mut out: Vec<usize> = Vec::new();
    let mut i: usize = 0;
    while i < dests.len()
        invariant
            i <= dests@.len(),
            crate::text::views(lower@) == lowered(patterns@),
            out@ == matching_to(dests@, lowered(patterns@), i as int),
        decreases dests@.len() - i,
    {
        let name = dests[i].name.to_lowercase();
        if lowered_matches(name.as_str(), &lower) {
            out.push(i);
        }
        i += 1;
    }
    out
}

/// The addresses tried so far and the places to connect, after the first `n` destinations.
pub open spec fn hosts_to(
    dests: Seq<Destination>,
    own: i32,
    already: Seq<(i32, i32)>,
    prefixes: Seq<Seq<char>>,
    n: int,
) -> (Seq<(i32, i32)>, Seq<usize>)
    decreases n,
{
    if n <= 0 {
        (already, Seq::empty())
    } else {
        let (tried, picked) = hosts_to(dests, own, already, prefixes, n - 1);
        let d = dests[n - 1];
        if d.client == own || tried.contains((d.client, d.port)) || unsafe_lowered(
            lowercase(d.name@),
            prefixes,
        ) {
            (tried, picked)
        } else {
            (tried.push((d.client, d.port)), picked.push((n - 1) as usize))
        }
    }
}

fn has_addr(v: &Vec<(i32, i32)>, client: i32, port: i32) -> (r: bool)
    ensures
        r == v@.contains((client, port)),
{
    let mut i: usize = 0;
    while i < v.len()
        invariant
            i <= v@.len(),
            forall|k: int| 0 <= k < i ==> #[trigger] v@[k] != (client, port),
        decreases v@.len() - i,
    {
        if v[i].0 == client && v[i].1 == port {
            assert(v@[i as int] == (client, port));
            return true;
        }
        i += 1;
    }
    false
}

/// Which destinations to subscribe because they look like a host: the places of those that were
/// not tried before, are not our own, and would not form a loop. Each is noted in `already`, so
/// that it is not tried again on every rescan, whether or not the connection succeeds.
pub fn connect_to_all_hosts(
    dests: &[Destination],
    own: i32,
    already: &mut Vec<(i32, i32)>,
    exclude: &[String],
) -> (r: Vec<usize>)
    ensures
        (final(already)@, r@) == hosts_to(
            dests@,
            own,
            old(already)@,
            lowered(exclude@),
            dests@.len() as int,
        ),
{
    let prefixes = lower_all(exclude);
    let mut out: Vec<usize> = Vec::new();
    let mut i: usize = 0;
    while i < dests.len()
        invariant
            i <= dests@.len(),
            crate::text::views(prefixes@) == lowered(exclude@),
            (already@, out@) == hosts_to(dests@, own, old(already)@, lowered(exclude@), i as int),
        decreases dests@.len() - i,
    {
        let d = &dests[i];
        if d.client != own && !has_addr(already, d.client, d.port) {
            let name = d.name.to_lowercase();
            if !is_unsafe_lowered(name.as_str(), &prefixes) {
                already.push((d.client, d.port));
                out.push(i);
            }
        }
        i += 1;
    }
    out
}

/// A second scan of the same ports connects nothing: every address that is picked was noted, and
/// what was noted is never picked again.
pub proof fn law_rescan_connects_nothing(
    dests: Seq<Destination>,
    own: i32,
    already: Seq<(i32, i32)>,
    prefixes: Seq<Seq<char>>,
    n: int,
)
    requires
        0 <= n <= dests.len(),
    ensures
        ({
            let noted = hosts_to(dests, own, already, prefixes, n).0;
            hosts_to(dests, own, noted, prefixes, n) == (noted, Seq::<usize>::empty())
        }),
{
    let noted = hosts_to(dests, own, already, prefixes, n).0;
    lemma_rescan(dests, own, already, prefixes, noted, n);
}

proof fn lemma_rescan(
    dests: Seq<Destination>,
    own: i32,
    already: Seq<(i32, i32)>,
    prefixes: Seq<Seq<char>>,
    noted: Seq<(i32, i32)>,
    n: int,
)
    requires
        0 <= n <= dests.len(),
        forall|a: (i32, i32)|
            #[trigger] hosts_to(dests, own, already, prefixes, n).0.contains(a) ==> noted.contains(
                a,
            ),
    ensures
        hosts_to(dests, own, noted, prefixes, n) == (noted, Seq::<usize>::empty()),
    decreases n,
{
    if n > 0 {
        let before = hosts_to(dests, own, already, prefixes, n - 1).0;
        let after = hosts_to(dests, own, already, prefixes, n).0;
        let d = dests[n - 1];
        let a = (d.client, d.port);
        assert forall|b: (i32, i32)| #[trigger] before.contains(b) implies noted.contains(b) by {
            let k = before.index_of(b);
            assert(before[k] == b);
            assert(after[k] == b);
            assert(after.contains(b));
        }
        lemma_rescan(dests, own, already, prefixes, noted, n - 1);
        if !(d.client == own || unsafe_lowered(lowercase(d.name@), prefixes)) {
            if !before.contains(a) {
                assert(after.last() == a);
            }
            assert(after.contains(a));
            assert(noted.contains(a));
        }
    }
}

/// Nothing that loops back, that is excluded, that is our own or that was tried before is ever
/// picked.
pub proof fn law_picked_hosts_are_safe(
    dests: Seq<Destination>,
    own: i32,
    already: Seq<(i32, i32)>,
    prefixes: Seq<Seq<char>>,
    n: int,
    k: int,
)
    requires
        0 <= n <= dests.len() <= usize::MAX,
        0 <= k < hosts_to(dests, own, already, prefixes, n).1.len(),
    ensures
        ({
            let at = hosts_to(dests, own, already, prefixes, n).1[k] as int;
            &&& 0 <= at < n
            &&& dests[at].client != own
            &&& !already.contains((dests[at].client, dests[at].port))
            &&& !unsafe_lowered(lowercase(dests[at].name@), prefixes)
        }),
    decreases n,
{
    if n > 0 {
        let (tried, picked) = hosts_to(dests, own, already, prefixes, n - 1);
        lemma_tried_grows(dests, own, already, prefixes, n - 1);
        if k < picked.len() {
            law_picked_hosts_are_safe(dests, own, already, prefixes, n - 1, k);
        } else {
            let a = (dests[n - 1].client, dests[n - 1].port);
            if already.contains(a) {
                let i = already.index_of(a);
                assert(tried[i] == a);
            }
        }
    }
}

proof fn lemma_tried_grows(
    dests: Seq<Destination>,
    own: i32,
    already: Seq<(i32, i32)>,
    prefixes: Seq<Seq<char>>,
    n: int,
)
    ensures
        hosts_to(dests, own, already, prefixes, n).0.len() >= already.len(),
        forall|i: int|
            0 <= i < already.len() ==> hosts_to(dests, own, already, prefixes, n).0[i]
                == #[trigger] already[i],
    decreases n,
{
    if n > 0 {
        lemma_tried_grows(dests, own, already, prefixes, n - 1);
    }
}

/// An event says what its message says: pressure on a key carries the key and how hard it is
/// pressed, and each of the others its value, all on the message's channel. A note on without
/// velocity ends the note.
pub proof fn law_events_say_what_the_message_says(ch: u8, num: u8, val: u8, bend: i16)
    ensures
        val > 0 ==> (event_of(Msg::NoteOn { ch, note: num, vel: val }) matches SeqEvent::Note {
            kind: NoteKind::Noteon,
            channel,
            note,
            velocity,
            ..
        } && channel == ch && note == num && velocity == val),
        event_of(Msg::NoteOn { ch, note: num, vel: 0 }) == event_of(
            Msg::NoteOff { ch, note: num, vel: 0 },
        ),
        event_of(Msg::NoteOff { ch, note: num, vel: val }) matches SeqEvent::Note {
            kind: NoteKind::Noteoff,
            channel,
            note,
            off_velocity,
            ..
        } && channel == ch && note == num && off_velocity == val,
        event_of(Msg::PolyAftertouch { ch, note: num, val }) matches SeqEvent::Note {
            kind: NoteKind::Keypress,
            channel,
            note,
            velocity,
            ..
        } && channel == ch && note == num && velocity == val,
        event_of(Msg::Cc { ch, cc: num, val }) matches SeqEvent::Ctrl {
            kind: CtrlKind::Controller,
            channel,
            param,
            value,
        } && channel == ch && param == num && value == val,
        event_of(Msg::ChannelAftertouch { ch, val }) matches SeqEvent::Ctrl {
            kind: CtrlKind::Chanpress,
            channel,
            value,
            ..
        } && channel == ch && value == val,
        event_of(Msg::Program { ch, num }) matches SeqEvent::Ctrl {
            kind: CtrlKind::Pgmchange,
            channel,
            value,
            ..
        } && channel == ch && value == num,
        event_of(Msg::PitchBend { ch, val: bend }) matches SeqEvent::Ctrl {
            kind: CtrlKind::Pitchbend,
            channel,
            value,
            ..
        } && channel == ch && value == bend,
        event_of(Msg::Start) is Start,
        event_of(Msg::Stop) is Stop,
        event_of(Msg::Continue) is Continue,
{
}

/// A port of a client is a destination: others may write to it, and its client is neither our own
/// nor the system's.
pub open spec fn reachable(c: SeqClient, p: SeqPort, own: i32) -> bool {
    c.client != own && c.client != 0 && p.write && p.subs_write
}

proof fn lemma_ports_to(c: SeqClient, n: int)
    requires
        0 <= n <= c.ports@.len(),
    ensures
        forall|j: int|
            0 <= j < n && (#[trigger] c.ports@[j]).write && c.ports@[j].subs_write ==> ports_to(
                c,
                n,
            ).contains(
                (DestinationView {
                    client: c.client,
                    port: c.ports@[j].port,
                    name: port_name(c, c.ports@[j]),
                }),
            ),
        forall|k: int|
            0 <= k < ports_to(c, n).len() ==> exists|j: int|
                0 <= j < n && (#[trigger] c.ports@[j]).write && c.ports@[j].subs_write
                    && #[trigger] ports_to(c, n)[k] == (DestinationView {
                    client: c.client,
                    port: c.ports@[j].port,
                    name: port_name(c, c.ports@[j]),
                }),
    decreases n,
{
    if n > 0 {
        lemma_ports_to(c, n - 1);
        let rest = ports_to(c, n - 1);
        let all = ports_to(c, n);
        assert forall|j: int|
            0 <= j < n && (#[trigger] c.ports@[j]).write && c.ports@[j].subs_write implies all.contains(
            (DestinationView {
                client: c.client,
                port: c.ports@[j].port,
                name: port_name(c, c.ports@[j]),
            }),
        ) by {
            let d = DestinationView {
                client: c.client,
                port: c.ports@[j].port,
                name: port_name(c, c.ports@[j]),
            };
            if j < n - 1 {
                assert(rest.contains(d));
                let k = rest.index_of(d);
                assert(all[k] == d);
            } else {
                assert(all.last() == d);
            }
        }
        assert forall|k: int| 0 <= k < all.len() implies exists|j: int|
            0 <= j < n && (#[trigger] c.ports@[j]).write && c.ports@[j].subs_write
                && #[trigger] all[k] == (DestinationView {
                client: c.client,
                port: c.ports@[j].port,
                name: port_name(c, c.ports@[j]),
            }) by {
            if k < rest.len() {
                assert(all[k] == rest[k]);
            } else {
                assert(c.ports@[n - 1].write);
            }
        }
    }
}

/// Every port that others may write to is listed, with the names of its client and of itself.
pub proof fn law_reachable_ports_are_listed(clients: Seq<SeqClient>, own: i32, n: int, i: int, j: int)
    requires
        0 <= i < n <= clients.len(),
        0 <= j < clients[i].ports@.len(),
        reachable(clients[i], clients[i].ports@[j], own),
    ensures
        clients_to(clients, own, n).contains(
            (DestinationView {
                client: clients[i].client,
                port: clients[i].ports@[j].port,
                name: shown(clients[i].name) + ":"@ + shown(clients[i].ports@[j].name),
            }),
        ),
    decreases n,
{
    let c = clients[i];
    let d = DestinationView {
        client: c.client,
        port: c.ports@[j].port,
        name: port_name(c, c.ports@[j]),
    };
    let rest = clients_to(clients, own, n - 1);
    let all = clients_to(clients, own, n);
    if i == n - 1 {
        let mine = ports_to(c, c.ports@.len() as int);
        lemma_ports_to(c, c.ports@.len() as int);
        assert(c.ports@[j].write);
        let k = mine.index_of(d);
        assert(all[rest.len() + k] == d);
    } else {
        law_reachable_ports_are_listed(clients, own, n - 1, i, j);
        let k = rest.index_of(d);
        assert(rest[k] == d);
        assert(all[k] == d);
    }
}

/// Nothing else is listed.
pub proof fn law_listed_ports_are_reachable(clients: Seq<SeqClient>, own: i32, n: int, k: int)
    requires
        0 <= n <= clients.len(),
        0 <= k < clients_to(clients, own, n).len(),
    ensures
        exists|i: int, j: int|
            0 <= i < n && 0 <= j < clients[i].ports@.len() && #[trigger] reachable(
                clients[i],
                clients[i].ports@[j],
                own,
            ) && clients_to(clients, own, n)[k].client == clients[i].client && clients_to(
                clients,
                own,
                n,
            )[k].port == clients[i].ports@[j].port,
    decreases n,
{
    if n > 0 {
        let c = clients[n - 1];
        let rest = clients_to(clients, own, n - 1);
        let all = clients_to(clients, own, n);
        if k < rest.len() {
            law_listed_ports_are_reachable(clients, own, n - 1, k);
            assert(all[k] == rest[k]);
        } else {
            let mine = ports_to(c, c.ports@.len() as int);
            lemma_ports_to(c, c.ports@.len() as int);
            assert(all[k] == mine[k - rest.len()]);
            let j = choose|j: int|
                0 <= j < c.ports@.len() && (#[trigger] c.ports@[j]).write && c.ports@[j].subs_write
                    && mine[k - rest.len()] == (DestinationView {
                    client: c.client,
                    port: c.ports@[j].port,
                    name: port_name(c, c.ports@[j]),
                });
            assert(reachable(clients[n - 1], clients[n - 1].ports@[j], own));
        }
    }
}

/// A destination is picked by name if, and only if, one of the patterns occurs in its name in lower
/// case, and the picks are in the order of the destinations.
pub proof fn law_matching_names_are_picked(
    dests: Seq<Destination>,
    patterns: Seq<Seq<char>>,
    n: int,
    i: int,
    j: int,
)
    requires
        0 <= i < n <= dests.len() <= usize::MAX,
        0 <= j < patterns.len(),
    ensures
        occurs(lowercase(dests[i].name@), patterns[j]) ==> matching_to(dests, patterns, n).contains(
            i as usize,
        ),
        patterns.len() == 1 && !occurs(lowercase(dests[i].name@), patterns[0]) ==> !matching_to(
            dests,
            patterns,
            n,
        ).contains(i as usize),
        forall|k: int, l: int|
            0 <= k < l < matching_to(dests, patterns, n).len() ==> #[trigger] matching_to(
                dests,
                patterns,
                n,
            )[k] < #[trigger] matching_to(dests, patterns, n)[l],
        forall|k: int|
            0 <= k < matching_to(dests, patterns, n).len() ==> #[trigger] matching_to(
                dests,
                patterns,
                n,
            )[k] < n,
        patterns.len() == 1 ==> forall|k: int|
            0 <= k < matching_to(dests, patterns, n).len() ==> occurs(
                lowercase(dests[#[trigger] matching_to(dests, patterns, n)[k] as int].name@),
                patterns[0],
            ),
    decreases n,
{
    lemma_matching(dests, patterns, n);
    let all = matching_to(dests, patterns, n);
    if occurs(lowercase(dests[i].name@), patterns[j]) {
        assert(any_occurs(lowercase(dests[i].name@), patterns));
    }
    if patterns.len() == 1 && !occurs(lowercase(dests[i].name@), patterns[0]) {
        if all.contains(i as usize) {
            let k = all.index_of(i as usize);
            assert(any_occurs(lowercase(dests[all[k] as int].name@), patterns));
        }
    }
    if patterns.len() == 1 {
        assert forall|k: int| 0 <= k < all.len() implies occurs(
            lowercase(dests[#[trigger] all[k] as int].name@),
            patterns[0],
        ) by {
            assert(any_occurs(lowercase(dests[all[k] as int].name@), patterns));
        }
    }
}

proof fn lemma_matching(dests: Seq<Destination>, patterns: Seq<Seq<char>>, n: int)
    requires
        0 <= n <= dests.len() <= usize::MAX,
    ensures
        ({
            let all = matching_to(dests, patterns, n);
            &&& forall|k: int| 0 <= k < all.len() ==> #[trigger] all[k] < n
            &&& forall|k: int|
                0 <= k < all.len() ==> any_occurs(
                    lowercase(dests[#[trigger] all[k] as int].name@),
                    patterns,
                )
            &&& forall|k: int, l: int|
                0 <= k < l < all.len() ==> #[trigger] all[k] < #[trigger] all[l]
            &&& forall|i: int|
                0 <= i < n && #[trigger] any_occurs(lowercase(dests[i].name@), patterns)
                    ==> all.contains(i as usize)
        }),
    decreases n,
{
    if n > 0 {
        lemma_matching(dests, patterns, n - 1);
        let rest = matching_to(dests, patterns, n - 1);
        let all = matching_to(dests, patterns, n);
        assert forall|i: int|
            0 <= i < n && #[trigger] any_occurs(
                lowercase(dests[i].name@),
                patterns,
            ) implies all.contains(i as usize) by {
            if i < n - 1 {
                assert(rest.contains(i as usize));
                let k = rest.index_of(i as usize);
                assert(all[k] == i as usize);
            } else {
                assert(all.last() == i as usize);
            }
        }
    }
}

/// A host that is there is connected to: an address that is not our own, would not form a loop and
/// is not excluded is noted after the scan, and stays so. A loopback, the system and its
/// announcements never are, unless they were noted before.
pub proof fn law_hosts_are_connected_to(
    dests: Seq<Destination>,
    own: i32,
    already: Seq<(i32, i32)>,
    prefixes: Seq<Seq<char>>,
    n: int,
    i: int,
)
    requires
        0 <= i < n <= dests.len(),
    ensures
        ({
            let name = lowercase(dests[i].name@);
            let noted = hosts_to(dests, own, already, prefixes, n).0;
            let risky = occurs(name, "midi through"@) || has_prefix(name, "system:"@) || occurs(
                name,
                "announce"@,
            ) || exists|k: int| 0 <= k < prefixes.len() && has_prefix(name, #[trigger] prefixes[k]);
            dests[i].client != own && !risky ==> noted.contains((dests[i].client, dests[i].port))
        }),
        forall|a: (i32, i32)|
            already.contains(a) ==> #[trigger] hosts_to(
                dests,
                own,
                already,
                prefixes,
                n,
            ).0.contains(a),
        hosts_to(dests, own, already, prefixes, n).0.len() == already.len() + hosts_to(
            dests,
            own,
            already,
            prefixes,
            n,
        ).1.len(),
    decreases n,
{
    let (tried, picked) = hosts_to(dests, own, already, prefixes, n - 1);
    let (after, all) = hosts_to(dests, own, already, prefixes, n);
    if n == 1 {
    } else if i < n - 1 {
        law_hosts_are_connected_to(dests, own, already, prefixes, n - 1, i);
    } else {
        law_hosts_are_connected_to(dests, own, already, prefixes, n - 1, 0);
    }
    assert forall|a: (i32, i32)| tried.contains(a) implies after.contains(a) by {
        let k = tried.index_of(a);
        assert(tried[k] == a);
        assert(after[k] == a);
    }
    if i == n - 1 {
        let a = (dests[i].client, dests[i].port);
        if dests[i].client != own && !unsafe_lowered(lowercase(dests[i].name@), prefixes)
            && !tried.contains(a) {
            assert(after.last() == a);
        }
    }
}

/// An address is named by its client and its port where both are known, by its client alone where
/// there is no such port, and else by its numbers.
pub proof fn law_addresses_are_named(c: SeqClient, rest: Seq<SeqClient>, client: i32, port: i32)
    ensures
        c.client == client && c.ports@.len() > 0 && c.ports@[0].port == port ==> described(
            seq![c] + rest,
            client,
            port,
        ) == shown(c.name) + ":"@ + shown(c.ports@[0].name),
        c.client == client && (forall|j: int|
            0 <= j < c.ports@.len() ==> (#[trigger] c.ports@[j]).port != port) ==> described(
            seq![c] + rest,
            client,
            port,
        ) == shown(c.name),
        c.client != client ==> described(seq![c] + rest, client, port) == described(
            rest,
            client,
            port,
        ),
        described(Seq::empty(), client, port) == dec_int(client as int) + ":"@ + dec_int(port as int),
{
    assert((seq![c] + rest).skip(1) =~= rest);
    assert((seq![c] + rest)[0] == c);
    if forall|j: int| 0 <= j < c.ports@.len() ==> (#[trigger] c.ports@[j]).port != port {
        lemma_no_such_port(c, c.ports@, port);
    }
}

proof fn lemma_no_such_port(c: SeqClient, ports: Seq<SeqPort>, port: i32)
    requires
        forall|j: int| 0 <= j < ports.len() ==> (#[trigger] ports[j]).port != port,
    ensures
        described_port(c, ports, port) == shown(c.name),
    decreases ports.len(),
{
    if ports.len() > 0 {
        assert(ports[0].port != port);
        lemma_no_such_port(c, ports.skip(1), port);
    }
}

/// Every name that is not empty is looked for in its lower-case form, and nothing else is.
pub proof fn law_names_are_looked_for_in_lower_case(names: Seq<String>, i: int)
    requires
        0 <= i < names.len(),
    ensures
        names[i]@.len() > 0 ==> lowered(names).contains(lowercase(names[i]@)),
        forall|k: int|
            #![trigger lowered(names)[k]]
            0 <= k < lowered(names).len() ==> exists|j: int|
                #![trigger names[j]]
                0 <= j < names.len() && names[j]@.len() > 0 && lowered(names)[k] == lowercase(
                    names[j]@,
                ),
    decreases names.len(),
{
    let rest = names.drop_last();
    let all = lowered(names);
    let before = lowered(rest);
    if rest.len() > 0 {
        law_names_are_looked_for_in_lower_case(rest, if i < rest.len() {
            i
        } else {
            0
        });
    }
    if names[i]@.len() > 0 {
        if i < rest.len() {
            let k = before.index_of(lowercase(rest[i]@));
            assert(all[k] == lowercase(names[i]@));
        } else {
            assert(all.last() == lowercase(names[i]@));
        }
    }
    assert forall|k: int| #![trigger all[k]] 0 <= k < all.len() implies exists|j: int|
        #![trigger names[j]]
        0 <= j < names.len() && names[j]@.len() > 0 && all[k] == lowercase(names[j]@) by {
        if k < before.len() {
            assert(all[k] == before[k]);
            let j = choose|j: int|
                #![trigger rest[j]]
                0 <= j < rest.len() && rest[j]@.len() > 0 && before[k] == lowercase(rest[j]@);
            assert(names[j] == rest[j]);
        } else {
            assert(all[k] == lowercase(names[names.len() - 1]@));
        }
    }
}

} // verus!
