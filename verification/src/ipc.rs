//! What passes between the driver and the configuration app.
//!
//! Two things flow over the control socket. The driver broadcasts what the hardware is doing,
//! which is what lets the app put the cursor on the control you just pressed. The app sends
//! config, which the driver validates, persists and applies.
use crate::config::{maybe_view, PadCfg};
use crate::engine::{Outputs, OutputsView};
use crate::hid::{ControlState, PadEvent, PadHit, BUTTON_BITS, KNOBS};
use crate::playing::{
    is_pressure, is_velocity, law_pressure_follows_the_finger, law_velocity_follows_the_hit,
};
use crate::preset::{Entry, Origin};
use crate::text::{in_dir, join_path};
use vstd::prelude::*;

verus! {

/// Something the hardware did, sent to every connected client.
#[derive(Debug, Clone, Copy, PartialEq, Eq, Structural)]
#[allow(inconsistent_fields)]
pub enum Event {
    /// A button changed state.
    Button {
        /// HID bit index.
        bit: usize,
        /// True on press.
        down: bool,
    },
    /// A pad was struck or released.
    Pad {
        /// HID pad index, 0 is the top-left pad.
        pad: u8,
        /// True while sounding.
        down: bool,
        /// Velocity or pressure, 0..=127.
        value: u8,
    },
    /// A knob moved. `value` is what was transmitted, not the raw position.
    Knob {
        /// Knob index, 0..8.
        knob: usize,
        /// Transmitted CC value.
        value: u8,
    },
    /// The 4-D encoder turned.
    Encoder {
        /// Transmitted CC value.
        value: u8,
    },
    /// The touch strip moved.
    Strip {
        /// Transmitted CC value.
        value: u8,
    },
}

/// A request from the configuration app.
#[derive(Debug, Clone)]
pub enum Request {
    /// Send back the config currently in force.
    GetConfig,
    /// Validate, persist and apply this config.
    SetConfig {
        /// The whole file, as TOML.
        toml: String,
    },
    /// Send back the device profile in force.
    GetProfile,
    /// List every preset available.
    ListPresets,
    /// Replace the live config with a preset, and apply it.
    LoadPreset {
        /// Preset name.
        name: String,
    },
    /// Save the live config as a named preset.
    SavePreset {
        /// Preset name.
        name: String,
        /// One line saying what it is for.
        description: String,
    },
    /// Delete a user preset.
    DeletePreset {
        /// Preset name.
        name: String,
    },
    /// Write someone else's preset into the user's directory.
    ImportPreset {
        /// Name to file it under.
        name: String,
        /// The file's contents.
        toml: String,
    },
    /// Ask for a reply, to check the driver is alive.
    Ping,
}

/// A reply to a [`Request`].
#[derive(Debug, Clone)]
pub enum Reply {
    /// The current config.
    Config {
        /// The whole file, as TOML.
        toml: String,
        /// Where it lives on disk.
        path: String,
    },
    /// The request succeeded.
    Done,
    /// The request failed, with a message fit to show a user.
    Error {
        /// What went wrong.
        message: String,
    },
    /// The device profile.
    Profile {
        /// The whole file, as TOML.
        toml: String,
        /// Where it lives on disk, or "(built in)".
        path: String,
    },
    /// The presets available.
    Presets {
        /// Every preset, sorted by name.
        entries: Vec<PresetEntry>,
        /// Where user presets live.
        dir: String,
        /// Which one the live config came from, if it says.
        active: Option<String>,
    },
    /// Reply to [`Request::Ping`].
    Pong {
        /// Driver version.
        version: String,
    },
}

/// One preset, as listed over the socket.
#[derive(Debug, Clone)]
pub struct PresetEntry {
    /// The name used to load it.
    pub name: String,
    /// One line describing what it is for.
    pub description: String,
    /// Whether it is compiled into the driver rather than a user file.
    pub builtin: bool,
    /// Whether a user file of this name shadows a built-in one.
    pub shadows_builtin: bool,
}

/// Anything the driver sends: an unsolicited event or a reply.
#[derive(Debug, Clone)]
pub enum Outbound {
    /// An unsolicited hardware event.
    Event(Event),
    /// A reply to a request.
    Reply(Reply),
}

/// Default socket path, under the user's runtime directory, or the directory for temporary files
/// where there is none.
pub fn socket_path(runtime: &Option<String>, temp: &str) -> (r: String)
    ensures
        r@ == in_dir(
            match maybe_view(*runtime) {
                Some(d) => d,
                None => temp@,
            },
            "maschine-mk3.sock"@,
        ),
{
    match runtime {
        Some(d) => join_path(d.as_str(), "maschine-mk3.sock"),
        None => join_path(temp, "maschine-mk3.sock"),
    }
}

// Events.

/// The events of the buttons below bit `n` that changed, in order.
pub open spec fn button_events(prev: ControlState, now: ControlState, n: int) -> Seq<Event>
    decreases n,
{
    if n <= 0 {
        Seq::empty()
    } else {
        let rest = button_events(prev, now, n - 1);
        if now.held(n - 1) != prev.held(n - 1) {
            rest.push(Event::Button { bit: (n - 1) as usize, down: now.held(n - 1) })
        } else {
            rest
        }
    }
}

/// The events of the first `n` knobs whose value changed.
pub open spec fn knob_events(before: OutputsView, after: OutputsView, n: int) -> Seq<Event>
    decreases n,
{
    if n <= 0 {
        Seq::empty()
    } else {
        let rest = knob_events(before, after, n - 1);
        if after.knobs[n - 1] != before.knobs[n - 1] {
            rest.push(Event::Knob { knob: (n - 1) as usize, value: after.knobs[n - 1] })
        } else {
            rest
        }
    }
}

/// The events of whatever changed in a report of the controls.
pub open spec fn control_events_of(
    prev: ControlState,
    now: ControlState,
    before: OutputsView,
    after: OutputsView,
) -> Seq<Event> {
    let moved = button_events(prev, now, BUTTON_BITS as int) + knob_events(
        before,
        after,
        KNOBS as int,
    );
    let turned = if after.encoder != before.encoder {
        moved.push(Event::Encoder { value: after.encoder })
    } else {
        moved
    };
    if after.strip != before.strip {
        turned.push(Event::Strip { value: after.strip })
    } else {
        turned
    }
}

/// The events of whatever changed in report `0x01`, appended to `out`.
pub fn report_controls(
    prev: &ControlState,
    now: &ControlState,
    before: &Outputs,
    after: &Outputs,
    out: &mut Vec<Event>,
)
    ensures
        final(out)@ == old(out)@ + control_events_of(*prev, *now, before@, after@),
{
    let mut bit: usize = 0;
    while bit < BUTTON_BITS
        invariant
            bit <= BUTTON_BITS,
            out@ =~= old(out)@ + button_events(*prev, *now, bit as int),
        decreases BUTTON_BITS - bit,
    {
        let down = now.button(bit);
        if down != prev.button(bit) {
            out.push(Event::Button { bit, down });
        }
        bit += 1;
    }
    let ghost buttons = out@;
    let mut i: usize = 0;
    while i < KNOBS
        invariant
            i <= KNOBS,
            out@ =~= buttons + knob_events(before@, after@, i as int),
        decreases KNOBS - i,
    {
        if after.knobs[i] != before.knobs[i] {
            out.push(Event::Knob { knob: i, value: after.knobs[i] });
        }
        i += 1;
    }
    if after.encoder != before.encoder {
        out.push(Event::Encoder { value: after.encoder });
    }
    if after.strip != before.strip {
        out.push(Event::Strip { value: after.strip });
    }
    assert(out@ =~= old(out)@ + control_events_of(*prev, *now, before@, after@));
}

/// The event of a pad: its velocity or its pressure, and nothing once it is let go.
pub open spec fn pad_event_of(p: PadCfg, h: PadHit) -> Event {
    match h.event {
        PadEvent::NoteOn | PadEvent::PressOn => Event::Pad {
            pad: h.pad,
            down: true,
            value: p.velocity_of(h.value) as u8,
        },
        PadEvent::NoteOff | PadEvent::PressOff => Event::Pad { pad: h.pad, down: false, value: 0 },
        PadEvent::Aftertouch => Event::Pad {
            pad: h.pad,
            down: true,
            value: p.pressure_of(h.value) as u8,
        },
    }
}

/// The events of a report of the pads.
pub open spec fn pad_events_of(p: PadCfg, hits: Seq<PadHit>) -> Seq<Event> {
    hits.map_values(|h: PadHit| pad_event_of(p, h))
}

/// The events of a report of the pads, appended to `out`.
pub fn report_pads(p: &PadCfg, hits: &[PadHit], out: &mut Vec<Event>)
    ensures
        final(out)@ == old(out)@ + pad_events_of(*p, hits@),
{
    let mut i: usize = 0;
    assert(pad_events_of(*p, hits@.take(0)) =~= Seq::empty());
    while i < hits.len()
        invariant
            i <= hits@.len(),
            out@ =~= old(out)@ + pad_events_of(*p, hits@.take(i as int)),
        decreases hits@.len() - i,
    {
        let h = hits[i];
        let ev = match h.event {
            PadEvent::NoteOn | PadEvent::PressOn => Event::Pad {
                pad: h.pad,
                down: true,
                value: p.velocity(h.value),
            },
            PadEvent::NoteOff | PadEvent::PressOff => Event::Pad {
                pad: h.pad,
                down: false,
                value: 0,
            },
            PadEvent::Aftertouch => Event::Pad {
                pad: h.pad,
                down: true,
                value: p.pressure(h.value),
            },
        };
        out.push(ev);
        assert(pad_events_of(*p, hits@.take(i as int + 1)) =~= pad_events_of(
            *p,
            hits@.take(i as int),
        ).push(ev));
        i += 1;
    }
    assert(hits@.take(hits@.len() as int) =~= hits@);
}

/// A report that changes nothing is not broadcast.
pub proof fn law_no_change_no_event(s: ControlState, o: OutputsView)
    ensures
        control_events_of(s, s, o, o) == Seq::<Event>::empty(),
{
    lemma_no_button_events(s, BUTTON_BITS as int);
    lemma_no_knob_events(o, KNOBS as int);
    assert(control_events_of(s, s, o, o) =~= Seq::<Event>::empty());
}

proof fn lemma_no_button_events(s: ControlState, n: int)
    ensures
        button_events(s, s, n) == Seq::<Event>::empty(),
    decreases n,
{
    if n > 0 {
        lemma_no_button_events(s, n - 1);
    }
}

proof fn lemma_no_knob_events(o: OutputsView, n: int)
    ensures
        knob_events(o, o, n) == Seq::<Event>::empty(),
    decreases n,
{
    if n > 0 {
        lemma_no_knob_events(o, n - 1);
    }
}

// Requests.

/// What has to be done for a request before it can be answered.
#[derive(Debug)]
pub enum Call {
    /// Nothing: this is the answer.
    Answer(Reply),
    /// Read the config's text and path.
    ReadConfig,
    /// Read the profile's text and path.
    ReadProfile,
    /// Apply this config.
    Apply(String),
    /// Handle a request about presets.
    Presets(Request),
}

/// Which work a request asks for. Preset handling needs the config path and the device profile,
/// so it is left to the driver.
pub fn route(req: Request, version: &str) -> (r: Call)
    ensures
        match req {
            Request::Ping => r matches Call::Answer(Reply::Pong { version: v }) && v@ == version@,
            Request::GetConfig => r is ReadConfig,
            Request::GetProfile => r is ReadProfile,
            Request::SetConfig { toml } => r == Call::Apply(toml),
            _ => r == Call::Presets(req),
        },
{
    match req {
        Request::Ping => Call::Answer(Reply::Pong { version: version.to_owned() }),
        Request::GetConfig => Call::ReadConfig,
        Request::GetProfile => Call::ReadProfile,
        Request::SetConfig { toml } => Call::Apply(toml),
        other => Call::Presets(other),
    }
}

/// The answer to a request that was carried out, or failed with a message.
pub fn outcome(r: Result<(), String>) -> (reply: Reply)
    ensures
        match r {
            Ok(()) => reply is Done,
            Err(m) => reply == (Reply::Error { message: m }),
        },
{
    match r {
        Ok(()) => Reply::Done,
        Err(message) => Reply::Error { message },
    }
}

/// The answer to a line that is no request.
pub fn bad_request(why: &str) -> (reply: Reply)
    ensures
        reply matches Reply::Error { message } && message@ == "bad request: "@ + why@,
{
    let mut message = "bad request: ".to_owned();
    message.append(why);
    Reply::Error { message }
}

/// The reply in what came over the socket; events can arrive between a request and its reply.
pub fn reply_in(msg: Outbound) -> (r: Option<Reply>)
    ensures
        match msg {
            Outbound::Reply(reply) => r == Some(reply),
            Outbound::Event(_) => r is None,
        },
{
    match msg {
        Outbound::Reply(reply) => Some(reply),
        Outbound::Event(_) => None,
    }
}

/// What is sent of a listed preset.
pub open spec fn sent_as(e: Entry, s: PresetEntry) -> bool {
    &&& s.name@ == e.name@
    &&& s.description@ == e.description@
    &&& s.builtin == (e.origin is Builtin)
    &&& s.shadows_builtin == e.shadows_builtin
}

/// The listed presets, as they are sent.
pub fn preset_entries(list: &Vec<Entry>) -> (r: Vec<PresetEntry>)
    ensures
        r@.len() == list@.len(),
        forall|i: int| 0 <= i < list@.len() ==> sent_as(list@[i], #[trigger] r@[i]),
{
    let mut out: Vec<PresetEntry> = Vec::new();
    let mut i: usize = 0;
    while i < list.len()
        invariant
            i <= list@.len(),
            out@.len() == i,
            forall|k: int| 0 <= k < i ==> sent_as(list@[k], #[trigger] out@[k]),
        decreases list@.len() - i,
    {
        let e = &list[i];
        out.push(
            PresetEntry {
                name: e.name.clone(),
                description: e.description.clone(),
                builtin: e.origin == Origin::Builtin,
                shadows_builtin: e.shadows_builtin,
            },
        );
        i += 1;
    }
    out
}

// What a listener learns.

proof fn lemma_button_event(prev: ControlState, now: ControlState, n: int, e: Event)
    requires
        0 <= n <= BUTTON_BITS,
    ensures
        button_events(prev, now, n).contains(e) <==> (e matches Event::Button { bit, down } && bit < n
            && now.held(bit as int) == down && prev.held(bit as int) != down),
    decreases n,
{
    if n > 0 {
        let rest = button_events(prev, now, n - 1);
        let all = button_events(prev, now, n);
        lemma_button_event(prev, now, n - 1, e);
        if rest.contains(e) {
            let k = rest.index_of(e);
            assert(all[k] == e);
        }
        if all != rest && e == all.last() {
            assert(all[rest.len() as int] == e);
        }
        if all.contains(e) && !rest.contains(e) {
            let k = all.index_of(e);
            assert(k == rest.len());
        }
    }
}

proof fn lemma_knob_event(before: OutputsView, after: OutputsView, n: int, e: Event)
    requires
        0 <= n <= KNOBS,
    ensures
        knob_events(before, after, n).contains(e) <==> (e matches Event::Knob { knob, value } && knob
            < n && after.knobs[knob as int] == value && before.knobs[knob as int] != value),
    decreases n,
{
    if n > 0 {
        let rest = knob_events(before, after, n - 1);
        let all = knob_events(before, after, n);
        lemma_knob_event(before, after, n - 1, e);
        if rest.contains(e) {
            let k = rest.index_of(e);
            assert(all[k] == e);
        }
        if all != rest && e == all.last() {
            assert(all[rest.len() as int] == e);
        }
        if all.contains(e) && !rest.contains(e) {
            let k = all.index_of(e);
            assert(k == rest.len());
        }
    }
}

/// A report is broadcast as what changed in it, and nothing else: a button with whether it is down
/// now, a knob with the value now sent for it, and so the encoder and the strip.
pub proof fn law_what_changed_is_broadcast(
    prev: ControlState,
    now: ControlState,
    before: OutputsView,
    after: OutputsView,
    e: Event,
)
    ensures
        control_events_of(prev, now, before, after).contains(e) <==> match e {
            Event::Button { bit, down } => bit < 80 && now.held(bit as int) == down && prev.held(
                bit as int,
            ) != down,
            Event::Knob { knob, value } => knob < 8 && after.knobs[knob as int] == value
                && before.knobs[knob as int] != value,
            Event::Encoder { value } => after.encoder == value && before.encoder != value,
            Event::Strip { value } => after.strip == value && before.strip != value,
            Event::Pad { .. } => false,
        },
{
    let a = button_events(prev, now, BUTTON_BITS as int);
    let b = knob_events(before, after, KNOBS as int);
    let all = control_events_of(prev, now, before, after);
    lemma_button_event(prev, now, BUTTON_BITS as int, e);
    lemma_knob_event(before, after, KNOBS as int, e);
    let moved = a + b;
    let turned = if after.encoder != before.encoder {
        moved.push(Event::Encoder { value: after.encoder })
    } else {
        moved
    };
    if a.contains(e) {
        let k = a.index_of(e);
        assert(all[k] == e);
    }
    if b.contains(e) {
        let k = b.index_of(e);
        assert(all[a.len() + k] == e);
    }
    if after.encoder != before.encoder && e == (Event::Encoder { value: after.encoder }) {
        assert(all[moved.len() as int] == e);
    }
    if after.strip != before.strip && e == (Event::Strip { value: after.strip }) {
        assert(all[turned.len() as int] == e);
    }
    if all.contains(e) {
        let k = all.index_of(e);
        if k < a.len() {
            assert(a[k] == e);
        } else if k < moved.len() {
            assert(b[k - a.len()] == e);
        }
    }
}

/// Each event of the pads is broadcast, in order, for its pad: a hit with its velocity, a pressure
/// with its aftertouch value, and a pad that was let go as up.
pub proof fn law_pad_events_are_broadcast(p: PadCfg, hits: Seq<PadHit>, i: int)
    requires
        0 <= i < hits.len(),
    ensures
        pad_events_of(p, hits).len() == hits.len(),
        pad_events_of(p, hits)[i] matches Event::Pad { pad, down, value } && {
            &&& pad == hits[i].pad
            &&& down == !(hits[i].event is NoteOff || hits[i].event is PressOff)
            &&& match hits[i].event {
                PadEvent::NoteOn | PadEvent::PressOn => is_velocity(p, hits[i].value, value),
                PadEvent::Aftertouch => is_pressure(p, hits[i].value, value),
                _ => value == 0,
            }
        },
{
    law_velocity_follows_the_hit(p, hits[i].value, hits[i].value);
    law_pressure_follows_the_finger(p, hits[i].value, hits[i].value);
}

/// A listed preset is sent with its own name and description; it is marked as built in where it is,
/// and as the user's own where it is that.
pub proof fn law_a_preset_is_sent_as_it_is_listed(e: Entry, s: PresetEntry)
    requires
        sent_as(e, s),
    ensures
        s.name@ == e.name@,
        s.description@ == e.description@,
        s.builtin <==> e.origin is Builtin,
        !s.builtin <==> e.origin is User,
        s.shadows_builtin == e.shadows_builtin,
{
}

} // verus!
