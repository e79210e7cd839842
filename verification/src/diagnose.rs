//! `mk3d --diagnose`: check everything between the device and the host.
//!
//! Most reports of "it doesn't work" are one of a handful of things, and all of them are
//! checkable: the device is not plugged in, udev has not been reloaded, another process holds the
//! display interface, or, by far the most common, the host lists the MIDI port without ever
//! subscribing to it, which looks exactly like a driver that is not transmitting.
//!
//! Each check says what it found and, when something is wrong, the command that fixes it. Nothing
//! here changes anything, and what is looked at is read elsewhere.
use crate::config::{maybe_view, Binding, Config};
use crate::device::id_text;
use crate::profile::Profile;
use crate::text::{
    after_prefix, contains, dec, eq_ignore_case, has_prefix, has_suffix, joined, lines, occurs, push_dec,
    push_hex, push_joined, same, same_but_case, split_lines, starts_with, strip_prefix, trim,
    trimmed, views,
};
use crate::{PID, VID};
use vstd::prelude::*;

verus! {

/// How a check came out.
#[derive(Debug)]
pub enum Verdict {
    /// Working.
    Fine(String),
    /// Working, but worth knowing about.
    Warn(String, String),
    /// Broken, with what to do about it.
    Bad(String, String),
}

/// How a check came out, as a model.
pub enum Finding {
    Fine(Seq<char>),
    Warn(Seq<char>, Seq<char>),
    Bad(Seq<char>, Seq<char>),
}

impl View for Verdict {
    type V = Finding;

    open spec fn view(&self) -> Finding {
        match *self {
            Verdict::Fine(d) => Finding::Fine(d@),
            Verdict::Warn(d, f) => Finding::Warn(d@, f@),
            Verdict::Bad(d, f) => Finding::Bad(d@, f@),
        }
    }
}

/// The lines that report a check.
pub open spec fn shown(title: Seq<char>, f: Finding) -> Seq<char> {
    match f {
        Finding::Fine(d) => "  ok    "@ + title + "\n        "@ + d,
        Finding::Warn(d, x) => "  note  "@ + title + "\n        "@ + d + "\n        "@ + x,
        Finding::Bad(d, x) => "  FAIL  "@ + title + "\n        "@ + d + "\n        -> "@ + x,
    }
}

/// The lines that report a check.
pub fn show(title: &str, v: &Verdict) -> (r: String)
    ensures
        r@ == shown(title@, v@),
{
    match v {
        Verdict::Fine(d) => {
            let mut s = "  ok    ".to_owned();
            s.append(title);
            s.append("\n        ");
            s.append(d.as_str());
            s
        },
        Verdict::Warn(d, x) => {
            let mut s = "  note  ".to_owned();
            s.append(title);
            s.append("\n        ");
            s.append(d.as_str());
            s.append("\n        ");
            s.append(x.as_str());
            s
        },
        Verdict::Bad(d, x) => {
            let mut s = "  FAIL  ".to_owned();
            s.append(title);
            s.append("\n        ");
            s.append(d.as_str());
            s.append("\n        -> ");
            s.append(x.as_str());
            s
        },
    }
}

/// How many of the first `n` findings are bad.
pub open spec fn bad_count(v: Seq<Verdict>, n: int) -> nat
    decreases n,
{
    if n <= 0 {
        0
    } else {
        bad_count(v, n - 1) + if v[n - 1] is Bad {
            1nat
        } else {
            0nat
        }
    }
}

/// How many of the first `n` findings are worth knowing about.
pub open spec fn warn_count(v: Seq<Verdict>, n: int) -> nat
    decreases n,
{
    if n <= 0 {
        0
    } else {
        warn_count(v, n - 1) + if v[n - 1] is Warn {
            1nat
        } else {
            0nat
        }
    }
}

/// The last line of the report.
pub open spec fn summary_of(bad: nat, warn: nat) -> Seq<char> {
    if bad == 0 && warn == 0 {
        "Everything checks out."@
    } else {
        dec(bad) + " problem(s), "@ + dec(warn) + " note(s)."@
    }
}

/// The last line of the report, and whether nothing is broken.
pub fn summary(v: &Vec<Verdict>) -> (r: (String, bool))
    ensures
        r.0@ == summary_of(
            bad_count(v@, v@.len() as int),
            warn_count(v@, v@.len() as int),
        ),
        r.1 == (bad_count(v@, v@.len() as int) == 0),
{
    let mut bad: usize = 0;
    let mut warn: usize = 0;
    let mut i: usize = 0;
    while i < v.len()
        invariant
            i <= v@.len(),
            bad == bad_count(v@, i as int),
            warn == warn_count(v@, i as int),
            bad <= i,
            warn <= i,
        decreases v@.len() - i,
    {
        match &v[i] {
            Verdict::Fine(_) => {},
            Verdict::Warn(_, _) => {
                warn += 1;
            },
            Verdict::Bad(_, _) => {
                bad += 1;
            },
        }
        i += 1;
    }
    if bad == 0 && warn == 0 {
        return ("Everything checks out.".to_owned(), true);
    }
    let mut s = String::new();
    push_dec(&mut s, bad as u64);
    s.append(" problem(s), ");
    push_dec(&mut s, warn as u64);
    s.append(" note(s).");
    assert(s@ =~= summary_of(bad as nat, warn as nat));
    (s, bad == 0)
}

/// The report says that nothing is broken exactly where every check is fine or a note.
pub proof fn law_healthy_means_nothing_bad(v: Seq<Verdict>, n: int)
    requires
        0 <= n <= v.len(),
    ensures
        bad_count(v, n) == 0 <==> forall|i: int| 0 <= i < n ==> !(#[trigger] v[i] is Bad),
    decreases n,
{
    if n > 0 {
        law_healthy_means_nothing_bad(v, n - 1);
        if bad_count(v, n) == 0 {
            assert forall|i: int| 0 <= i < n implies !(#[trigger] v[i] is Bad) by {}
        }
    }
}

// USB and HID.

/// Whether the ids of a USB device are those of the controller.
pub open spec fn usb_is_ours(vendor: Seq<char>, product: Seq<char>) -> bool {
    same_but_case(trimmed(vendor), id_text(VID)) && same_but_case(trimmed(product), id_text(PID))
}

/// Whether the ids of a USB device are those of the controller.
pub fn usb_matches(vendor: &str, product: &str) -> (r: bool)
    ensures
        r == usb_is_ours(vendor@, product@),
{
    let v = trim(vendor);
    let p = trim(product);
    let mut want_v = String::new();
    push_hex(&mut want_v, VID as u64, 4);
    let mut want_p = String::new();
    push_hex(&mut want_p, PID as u64, 4);
    assert(want_v@ =~= id_text(VID));
    assert(want_p@ =~= id_text(PID));
    eq_ignore_case(v.as_str(), want_v.as_str()) && eq_ignore_case(p.as_str(), want_p.as_str())
}

/// Whether the device is on the bus.
pub fn usb(found: bool) -> (r: Verdict)
    ensures
        r@ == (if found {
            Finding::Fine("17cc:1600 is present"@)
        } else {
            Finding::Bad(
                "no 17cc:1600 on the USB bus"@,
                "plug the Maschine in. The driver waits, so it will pick it up on its own."@,
            )
        }),
{
    if found {
        Verdict::Fine("17cc:1600 is present".to_owned())
    } else {
        Verdict::Bad(
            "no 17cc:1600 on the USB bus".to_owned(),
            "plug the Maschine in. The driver waits, so it will pick it up on its own.".to_owned(),
        )
    }
}

/// Advice where the node cannot be opened.
pub const UDEV_TEXT: &'static str =
    "sudo cp udev/98-maschine-mk3.rules /etc/udev/rules.d/ && sudo udevadm control --reload, then unplug and replug";

/// What was found of the HID node: why there is none, or its path and why it cannot be opened.
pub enum HidNode {
    Missing(String),
    Open(String),
    Refused(String, String),
}

/// Whether the HID node can be used.
pub fn hid(node: &HidNode) -> (r: Verdict)
    ensures
        r@ == (match *node {
            HidNode::Missing(e) => Finding::Bad(
                e@,
                "if the device is plugged in, install udev/98-maschine-mk3.rules and replug"@,
            ),
            HidNode::Open(p) => Finding::Fine(p@ + " is readable and writable"@),
            HidNode::Refused(p, e) => Finding::Bad(p@ + " cannot be opened: "@ + e@, UDEV_TEXT@),
        }),
{
    match node {
        HidNode::Missing(e) => Verdict::Bad(
            e.clone(),
            "if the device is plugged in, install udev/98-maschine-mk3.rules and replug".to_owned(),
        ),
        HidNode::Open(p) => {
            let mut s = p.clone();
            s.append(" is readable and writable");
            Verdict::Fine(s)
        },
        HidNode::Refused(p, e) => {
            let mut s = p.clone();
            s.append(" cannot be opened: ");
            s.append(e.as_str());
            Verdict::Bad(s, UDEV_TEXT.to_owned())
        },
    }
}

/// Whether the screens can be used, given why they could not be opened. Only one process can hold
/// the interface, and a stray copy of the driver or a learn tool is the usual reason.
pub fn display(error: &Option<String>) -> (r: Verdict)
    ensures
        r@ == (match *error {
            None => Finding::Fine("USB interface 5 claimed; the screens will work"@),
            Some(e) => if occurs(e@, "Busy"@) || occurs(e@, "busy"@) {
                Finding::Warn(
                    "USB interface 5 is held by something else"@,
                    "another mk3d or a mk3-learn is running: pkill mk3d"@,
                )
            } else {
                Finding::Warn(
                    "cannot claim USB interface 5: "@ + e@,
                    "LEDs and MIDI still work; only the screens are affected"@,
                )
            },
        }),
{
    match error {
        None => Verdict::Fine("USB interface 5 claimed; the screens will work".to_owned()),
        Some(e) => {
            if contains(e.as_str(), "Busy") || contains(e.as_str(), "busy") {
                Verdict::Warn(
                    "USB interface 5 is held by something else".to_owned(),
                    "another mk3d or a mk3-learn is running: pkill mk3d".to_owned(),
                )
            } else {
                let mut s = "cannot claim USB interface 5: ".to_owned();
                s.append(e.as_str());
                Verdict::Warn(
                    s,
                    "LEDs and MIDI still work; only the screens are affected".to_owned(),
                )
            }
        },
    }
}

/// What is said where the sound card is there.
pub const AUDIO_TEXT: &'static str =
    "the sound card is bound to snd-usb-audio: 4 out / 2 in, up to 96 kHz (see audio/README.md)";

/// Whether the sound card is there, given the kernel's list of them.
pub fn audio(cards: &str) -> (r: Verdict)
    ensures
        r@ == (if occurs(cards@, "Maschine MK3"@) {
            Finding::Fine(AUDIO_TEXT@)
        } else {
            Finding::Warn(
                "the MK3 sound card is not in /proc/asound/cards"@,
                "the control surface does not need it; check the cable if you wanted audio"@,
            )
        }),
{
    if contains(cards, "Maschine MK3") {
        Verdict::Fine(AUDIO_TEXT.to_owned())
    } else {
        Verdict::Warn(
            "the MK3 sound card is not in /proc/asound/cards".to_owned(),
            "the control surface does not need it; check the cable if you wanted audio".to_owned(),
        )
    }
}

// Config and profile.

/// How many of the first `n` bindings send something.
pub open spec fn sending(b: Seq<(String, Binding)>, n: int) -> nat
    decreases n,
{
    if n <= 0 {
        0
    } else {
        sending(b, n - 1) + if b[n - 1].1.full().send@ != "none"@ {
            1nat
        } else {
            0nat
        }
    }
}

/// Where the profile comes from, in words.
pub open spec fn profile_text(path: Option<Seq<char>>) -> Seq<char> {
    match path {
        Some(p) => "profile: "@ + p,
        None => "profile: built in"@,
    }
}

/// The config file, as far as it could be read.
pub enum ConfigFile {
    /// There is none.
    Absent,
    /// It cannot be read, for this reason.
    Broken(String),
    /// It was read.
    Loaded(Config),
}

/// What the files come to: whether they can be read, and whether they fit each other.
pub open spec fn files_finding(
    path: Seq<char>,
    profile_path: Option<Seq<char>>,
    file: ConfigFile,
    profile: Result<Profile, String>,
) -> Finding {
    match file {
        ConfigFile::Absent => Finding::Warn(
            path + " does not exist yet; "@ + profile_text(profile_path),
            "it is written on first run, or with: mk3d --write-default-config"@,
        ),
        ConfigFile::Broken(e) => Finding::Bad(
            e@,
            "fix the file, or start again with: mk3d --preset default"@,
        ),
        ConfigFile::Loaded(cfg) => match profile {
            Err(e) => Finding::Bad(e@, "correct the device profile"@),
            Ok(p) => {
                let fault = if cfg.valid() {
                    cfg.name_fault(p, 0)
                } else {
                    cfg.fault()
                };
                match fault {
                    Some(f) => Finding::Bad(
                        f.details(),
                        "correct the name, or load a preset: mk3d --preset default"@,
                    ),
                    None => Finding::Fine(
                        path + " valid; "@ + dec(
                            sending(cfg.bindings(), cfg.bindings().len() as int),
                        ) + " of "@ + dec(cfg.bindings().len()) + " buttons send something; "@
                            + profile_text(profile_path),
                    ),
                }
            },
        },
    }
}

fn push_profile(s: &mut String, path: &Option<String>)
    ensures
        final(s)@ == old(s)@ + profile_text(maybe_view(*path)),
{
    match path {
        Some(p) => {
            s.append("profile: ");
            s.append(p.as_str());
        },
        None => {
            s.append("profile: built in");
        },
    }
    assert(s@ =~= old(s)@ + profile_text(maybe_view(*path)));
}

fn count_sending(cfg: &Config) -> (r: usize)
    ensures
        r == sending(cfg.bindings(), cfg.bindings().len() as int),
        r <= cfg.bindings().len(),
{
    let mut n: usize = 0;
    let mut i: usize = 0;
    while i < cfg.buttons.len()
        invariant
            i <= cfg.bindings().len(),
            n == sending(cfg.bindings(), i as int),
            n <= i,
        decreases cfg.bindings().len() - i,
    {
        let b = cfg.buttons.value(i).resolve();
        if !same(b.send.as_str(), "none") {
            n += 1;
        }
        i += 1;
    }
    n
}

/// Whether the config and the profile can be used. `profile_path` is that of the user's profile,
/// where there is one.
pub fn files(
    path: &str,
    profile_path: &Option<String>,
    file: &ConfigFile,
    profile: &Result<Profile, String>,
) -> (r: Verdict)
    ensures
        r@ == files_finding(path@, maybe_view(*profile_path), *file, *profile),
{
    match file {
        ConfigFile::Absent => {
            let mut s = path.to_owned();
            s.append(" does not exist yet; ");
            push_profile(&mut s, profile_path);
            Verdict::Warn(
                s,
                "it is written on first run, or with: mk3d --write-default-config".to_owned(),
            )
        },
        ConfigFile::Broken(e) => Verdict::Bad(
            e.clone(),
            "fix the file, or start again with: mk3d --preset default".to_owned(),
        ),
        ConfigFile::Loaded(cfg) => match profile {
            Err(e) => Verdict::Bad(e.clone(), "correct the device profile".to_owned()),
            Ok(p) => match cfg.validate_against(p) {
                Err(e) => Verdict::Bad(
                    e.details(),
                    "correct the name, or load a preset: mk3d --preset default".to_owned(),
                ),
                Ok(()) => {
                    let mut s = path.to_owned();
                    s.append(" valid; ");
                    push_dec(&mut s, count_sending(cfg) as u64);
                    s.append(" of ");
                    push_dec(&mut s, cfg.buttons.len() as u64);
                    s.append(" buttons send something; ");
                    push_profile(&mut s, profile_path);
                    Verdict::Fine(s)
                },
            },
        },
    }
}

// The sequencer.

/// Whether the output port exists, given the kernel's list of sequencer clients.
pub fn midi_port(clients: &str) -> (r: Verdict)
    ensures
        r@ == (if clients@.len() == 0 {
            Finding::Bad(
                "the ALSA sequencer is not available"@,
                "load it with: sudo modprobe snd-seq"@,
            )
        } else if occurs(clients@, "Controller Out"@) {
            Finding::Fine("the driver's output port exists"@)
        } else {
            Finding::Warn(
                "no 'Controller Out' port; the driver may not be running"@,
                "start it with: mk3d"@,
            )
        }),
{
    if clients.is_empty() {
        return Verdict::Bad(
            "the ALSA sequencer is not available".to_owned(),
            "load it with: sudo modprobe snd-seq".to_owned(),
        );
    }
    if contains(clients, "Controller Out") {
        Verdict::Fine("the driver's output port exists".to_owned())
    } else {
        Verdict::Warn(
            "no 'Controller Out' port; the driver may not be running".to_owned(),
            "start it with: mk3d".to_owned(),
        )
    }
}

/// Whether the line after the first `n` belongs to the output port: the port's own line was seen
/// and neither another client's nor another port's since.
pub open spec fn in_port(ls: Seq<Seq<char>>, n: int) -> bool
    decreases n,
{
    if n <= 0 {
        false
    } else {
        let l = ls[n - 1];
        if occurs(l, "Controller Out"@) {
            true
        } else if has_prefix(l, "Client "@) || has_prefix(trimmed(l), "Port "@) {
            false
        } else {
            in_port(ls, n - 1)
        }
    }
}

/// Whom a line says that the port is connected to, where it belongs to the port.
pub open spec fn listener_in(ls: Seq<Seq<char>>, n: int) -> Option<Seq<char>> {
    let l = ls[n];
    if in_port(ls, n) && !has_prefix(l, "Client "@) && !occurs(l, "Controller Out"@) {
        after_prefix(trimmed(l), "Connecting To: "@)
    } else {
        None
    }
}

/// Whom the first `n` lines say that the port is connected to.
pub open spec fn listeners(ls: Seq<Seq<char>>, n: int) -> Seq<Seq<char>>
    decreases n,
{
    if n <= 0 {
        Seq::empty()
    } else {
        match listener_in(ls, n - 1) {
            Some(who) => listeners(ls, n - 1).push(who),
            None => listeners(ls, n - 1),
        }
    }
}

fn find_listeners(clients: &str) -> (r: Vec<String>)
    ensures
        views(r@) == listeners(lines(clients@), lines(clients@).len() as int),
{
    let ls = split_lines(clients);
    let ghost all = lines(clients@);
    let mut ours = false;
    let mut out: Vec<String> = Vec::new();
    let mut i: usize = 0;
    assert(views(out@) =~= Seq::empty());
    while i < ls.len()
        invariant
            views(ls@) == all,
            i <= ls@.len(),
            ours == in_port(all, i as int),
            views(out@) == listeners(all, i as int),
        decreases ls@.len() - i,
    {
        assert(all[i as int] == ls@[i as int]@);
        let l = ls[i].as_str();
        if starts_with(l, "Client ") {
            ours = false;
        }
        if contains(l, "Controller Out") {
            ours = true;
        } else if ours {
            let t = trim(l);
            let ghost prior = out@;
            if let Some(who) = strip_prefix(t.as_str(), "Connecting To: ") {
                out.push(who);
                assert(views(out@) =~= views(prior).push(who@));
            }
            if starts_with(t.as_str(), "Port ") {
                ours = false;
            }
        }
        i += 1;
    }
    assert(all.len() == ls@.len());
    out
}

/// Advice where nobody listens.
pub const UNHEARD_TEXT: &'static str =
    "This is normal until a host connects. If your host lists the device but receives nothing, it has not subscribed: add its name to general.connect_to, or run `aconnect` once. See `mk3d --list-ports`.";

/// Who is listening, given the kernel's list of sequencer clients.
pub open spec fn subscribers_finding(clients: Seq<char>) -> Finding {
    let who = listeners(lines(clients), lines(clients).len() as int);
    if !occurs(clients, "Controller Out"@) {
        Finding::Warn("the driver is not running"@, "start it with: mk3d"@)
    } else if who.len() == 0 {
        Finding::Warn("nothing is subscribed to the output port"@, UNHEARD_TEXT@)
    } else {
        Finding::Fine("subscribed: "@ + joined(who, ", "@, who.len() as int))
    }
}

/// Who is listening, given the kernel's list of sequencer clients.
///
/// The port block lists its subscribers. Nothing there means the port exists and nobody is reading
/// it: the single most common reason a host "sees the device but gets nothing".
pub fn subscribers(clients: &str) -> (r: Verdict)
    ensures
        r@ == subscribers_finding(clients@),
{
    let who = find_listeners(clients);
    assert(views(who@).len() == who@.len());
    if !contains(clients, "Controller Out") {
        return Verdict::Warn(
            "the driver is not running".to_owned(),
            "start it with: mk3d".to_owned(),
        );
    }
    if who.len() == 0 {
        Verdict::Warn(
            "nothing is subscribed to the output port".to_owned(),
            UNHEARD_TEXT.to_owned(),
        )
    } else {
        let mut s = "subscribed: ".to_owned();
        push_joined(&mut s, &who, ", ");
        Verdict::Fine(s)
    }
}

/// The first of the lines from `n` on that names the output port on the PipeWire graph.
pub open spec fn bridge_in(ls: Seq<Seq<char>>, n: int) -> Option<Seq<char>>
    decreases ls.len() - n,
{
    if n < 0 || n >= ls.len() {
        None
    } else if occurs(ls[n], "Maschine MK3"@) && occurs(ls[n], "Controller Out"@) {
        Some(trimmed(ls[n]))
    } else {
        bridge_in(ls, n + 1)
    }
}

/// Advice where the port is not bridged.
pub const BRIDGE_TEXT: &'static str =
    "fine for an ALSA host. A JACK host will not see it: enable WirePlumber's alsa.midi bridge.";

/// What is said of a bridged port.
pub open spec fn bridged_text(port: Seq<char>) -> Seq<char> {
    "bridged to JACK as \""@ + port + BRIDGED_MIDDLE@ + port + "\" \"YOUR-HOST:MIDI Input 1\""@
}

/// What is said of a bridged port, between the two places where it is named.
pub const BRIDGED_MIDDLE: &'static str =
    "\"\n        A JACK host still has to be connected to it -- use qpwgraph, or:\n        pw-link \"";

/// Whether the port is on the PipeWire graph, given what lists its outputs, where that could be
/// run.
pub fn pipewire(outputs: &Option<String>) -> (r: Verdict)
    ensures
        r@ == (match *outputs {
            None => Finding::Warn(
                "pw-link not found, so PipeWire could not be checked"@,
                "only matters if your host uses JACK rather than ALSA"@,
            ),
            Some(text) => match bridge_in(lines(text@), 0) {
                None => Finding::Warn(
                    "the output port is not on the PipeWire graph"@,
                    BRIDGE_TEXT@,
                ),
                Some(port) => Finding::Fine(bridged_text(port)),
            },
        }),
{
    match outputs {
        None => Verdict::Warn(
            "pw-link not found, so PipeWire could not be checked".to_owned(),
            "only matters if your host uses JACK rather than ALSA".to_owned(),
        ),
        Some(text) => {
            let ls = split_lines(text.as_str());
            let ghost all = lines(text@);
            let mut i: usize = 0;
            while i < ls.len()
                invariant
                    views(ls@) == all,
                    all == lines(text@),
                    *outputs == Some(*text),
                    i <= ls@.len(),
                    bridge_in(all, 0) == bridge_in(all, i as int),
                decreases ls@.len() - i,
            {
                assert(all[i as int] == ls@[i as int]@);
                assert(all.len() == ls@.len());
                let l = ls[i].as_str();
                if contains(l, "Maschine MK3") && contains(l, "Controller Out") {
                    let port = trim(l);
                    let mut s = "bridged to JACK as \"".to_owned();
                    s.append(port.as_str());
                    s.append(BRIDGED_MIDDLE);
                    s.append(port.as_str());
                    s.append("\" \"YOUR-HOST:MIDI Input 1\"");
                    return Verdict::Fine(s);
                }
                i += 1;
            }
            assert(all.len() == ls@.len());
            Verdict::Warn(
                "the output port is not on the PipeWire graph".to_owned(),
                BRIDGE_TEXT.to_owned(),
            )
        },
    }
}

/// Advice where real-time scheduling is not to be had.
pub const AUDIO_GROUP_TEXT: &'static str =
    "sudo usermod -aG audio \"$USER\", then log out and back in. The driver runs without it; only scheduler jitter is affected.";

/// Whether real-time scheduling is to be had, given the limit, where it could be read.
pub fn realtime(limit: Option<u64>) -> (r: Verdict)
    ensures
        r@ == (match limit {
            None => Finding::Warn("could not read the rtprio limit"@, Seq::empty()),
            Some(n) => if n >= 20 {
                Finding::Fine(
                    "rtprio limit is "@ + dec(n as nat) + ", so SCHED_FIFO is available"@,
                )
            } else {
                Finding::Warn("rtprio limit is "@ + dec(n as nat), AUDIO_GROUP_TEXT@)
            },
        }),
{
    match limit {
        None => Verdict::Warn("could not read the rtprio limit".to_owned(), String::new()),
        Some(n) => {
            let mut s = "rtprio limit is ".to_owned();
            push_dec(&mut s, n);
            if n >= 20 {
                s.append(", so SCHED_FIFO is available");
                Verdict::Fine(s)
            } else {
                Verdict::Warn(s, AUDIO_GROUP_TEXT.to_owned())
            }
        },
    }
}

// What the report promises.

/// Every check is counted once: as fine, as worth knowing about or as bad. A check more is counted as
/// what it is.
pub proof fn law_every_check_is_counted(v: Seq<Verdict>, n: int)
    requires
        0 <= n < v.len(),
    ensures
        bad_count(v, n + 1) == bad_count(v, n) + (if v[n] is Bad {
            1nat
        } else {
            0nat
        }),
        warn_count(v, n + 1) == warn_count(v, n) + (if v[n] is Warn {
            1nat
        } else {
            0nat
        }),
        bad_count(v, n + 1) + warn_count(v, n + 1) <= n + 1,
        bad_count(v, 0) == 0 && warn_count(v, 0) == 0,
    decreases n,
{
    if n > 0 {
        law_every_check_is_counted(v, n - 1);
    }
}

/// The report's last line names both numbers, and says that all is well exactly where both are 0.
pub proof fn law_the_summary_gives_the_numbers(bad: nat, warn: nat)
    ensures
        bad > 0 || warn > 0 ==> has_prefix(summary_of(bad, warn), dec(bad)) && occurs(
            summary_of(bad, warn),
            dec(warn),
        ),
        summary_of(bad, warn) == "Everything checks out."@ <==> bad == 0 && warn == 0,
{
    let a = dec(bad) + " problem(s), "@;
    let b = " note(s)."@;
    crate::text::law_prefixes_and_pieces(
        Seq::empty(),
        dec(bad),
        " problem(s), "@ + dec(warn) + " note(s)."@,
    );
    crate::text::law_prefixes_and_pieces(a, dec(warn), b);
    if bad > 0 || warn > 0 {
        let s = summary_of(bad, warn);
        assert(s =~= dec(bad) + (" problem(s), "@ + dec(warn) + " note(s)."@));
        assert(s =~= a + dec(warn) + b);
        reveal_strlit("Everything checks out.");
        crate::text::law_decimal_reads_back(bad, 0);
        assert(crate::text::is_digit(dec(bad)[0]));
        assert(s[0] == dec(bad)[0]);
        assert("Everything checks out."@[0] == 'E');
    }
}

/// The files are fine exactly where the config was read, the profile was read, the settings are in
/// range and every bound control exists. A config that is not there yet is only a note.
pub proof fn law_files_are_fine_where_they_can_be_used(
    path: Seq<char>,
    profile_path: Option<Seq<char>>,
    file: ConfigFile,
    profile: Result<Profile, String>,
)
    ensures
        files_finding(path, profile_path, file, profile) is Fine <==> (file matches ConfigFile::Loaded(
            cfg,
        ) && profile matches Ok(p) && cfg.valid() && cfg.name_fault(p, 0) is None),
        files_finding(path, profile_path, file, profile) is Warn <==> file is Absent,
{
}

/// Bindings that send nothing are not counted as sending, and every other one is.
pub proof fn law_sending_bindings_are_counted(b: Seq<(String, Binding)>, n: int)
    requires
        0 <= n < b.len(),
    ensures
        b[n].1.sends()@ == "none"@ ==> sending(b, n + 1) == sending(b, n),
        b[n].1.sends()@ != "none"@ ==> sending(b, n + 1) == sending(b, n) + 1,
        sending(b, 0) == 0,
{
}

/// A line says that somebody listens where it belongs to the output port: the last line before it
/// that names a client, a port or the output port names the output port.
pub proof fn law_listeners_are_those_of_the_output_port(ls: Seq<Seq<char>>, n: int)
    requires
        0 <= n <= ls.len(),
    ensures
        in_port(ls, n) <==> exists|m: int|
            0 <= m < n && occurs(#[trigger] ls[m], "Controller Out"@) && forall|j: int|
                m < j < n ==> !has_prefix(#[trigger] ls[j], "Client "@) && !has_prefix(
                    trimmed(ls[j]),
                    "Port "@,
                ),
    decreases n,
{
    if n > 0 {
        law_listeners_are_those_of_the_output_port(ls, n - 1);
        let l = ls[n - 1];
        if occurs(l, "Controller Out"@) {
            assert(occurs(ls[n - 1], "Controller Out"@));
        } else if in_port(ls, n) {
            let m = choose|m: int|
                0 <= m < n - 1 && occurs(#[trigger] ls[m], "Controller Out"@) && forall|j: int|
                    m < j < n - 1 ==> !has_prefix(#[trigger] ls[j], "Client "@) && !has_prefix(
                        trimmed(ls[j]),
                        "Port "@,
                    );
            assert(occurs(ls[m], "Controller Out"@));
        }
        if exists|m: int|
            0 <= m < n && occurs(#[trigger] ls[m], "Controller Out"@) && forall|j: int|
                m < j < n ==> !has_prefix(#[trigger] ls[j], "Client "@) && !has_prefix(
                    trimmed(ls[j]),
                    "Port "@,
                ) {
            let m = choose|m: int|
                0 <= m < n && occurs(#[trigger] ls[m], "Controller Out"@) && forall|j: int|
                    m < j < n ==> !has_prefix(#[trigger] ls[j], "Client "@) && !has_prefix(
                        trimmed(ls[j]),
                        "Port "@,
                    );
            if m < n - 1 {
                assert(!has_prefix(ls[n - 1], "Client "@));
            }
        }
    }
}

/// Whoever the output port is said to be connected to is listed by name, in order.
pub proof fn law_listeners_are_listed(ls: Seq<Seq<char>>, n: int, who: Seq<char>)
    requires
        0 <= n < ls.len(),
        in_port(ls, n),
        trimmed(ls[n]) == "Connecting To: "@ + who,
        !has_prefix(ls[n], "Client "@),
        !occurs(ls[n], "Controller Out"@),
    ensures
        listeners(ls, n + 1) == listeners(ls, n).push(who),
{
    crate::text::law_prefixes_and_pieces(Seq::empty(), "Connecting To: "@, who);
}

/// The port on the graph is the first line that names both the device and the output port.
pub proof fn law_the_bridge_is_the_first_line_that_names_it(ls: Seq<Seq<char>>, n: int)
    requires
        0 <= n,
    ensures
        bridge_in(ls, n) is None <==> forall|k: int|
            n <= k < ls.len() ==> !(occurs(#[trigger] ls[k], "Maschine MK3"@) && occurs(
                ls[k],
                "Controller Out"@,
            )),
        bridge_in(ls, n) matches Some(t) ==> exists|k: int|
            n <= k < ls.len() && trimmed(#[trigger] ls[k]) == t && occurs(ls[k], "Maschine MK3"@)
                && occurs(ls[k], "Controller Out"@),
    decreases ls.len() - n,
{
    if n < ls.len() {
        law_the_bridge_is_the_first_line_that_names_it(ls, n + 1);
        assert(ls[n] == ls[n]);
        let l = ls[n];
        if occurs(l, "Maschine MK3"@) && occurs(l, "Controller Out"@) {
            assert(trimmed(ls[n]) == trimmed(ls[n]));
        }
    }
}

/// A bad finding is shown with the title of its check, with what was found, and last with what to do.
pub proof fn law_a_bad_finding_is_shown_in_full(title: Seq<char>, d: Seq<char>, x: Seq<char>)
    ensures
        occurs(shown(title, Finding::Bad(d, x)), title),
        occurs(shown(title, Finding::Bad(d, x)), d),
        has_suffix(shown(title, Finding::Bad(d, x)), x),
{
    let bad = shown(title, Finding::Bad(d, x));
    let (p, q, r) = ("  FAIL  "@, "\n        "@, "\n        -> "@);
    assert(occurs(bad, title)) by {
        crate::text::law_prefixes_and_pieces(p, title, q + d + r + x);
        assert(bad =~= p + title + (q + d + r + x));
    }
    assert(occurs(bad, d)) by {
        crate::text::law_prefixes_and_pieces(p + title + q, d, r + x);
        assert(bad =~= (p + title + q) + d + (r + x));
    }
    assert(has_suffix(bad, x)) by {
        crate::text::law_prefixes_and_pieces(p + title + q + d + r, x, Seq::empty());
    }
}

/// A note is shown with what was found, and last with what to know about it; and a fine check with
/// what was found.
pub proof fn law_a_note_is_shown_in_full(title: Seq<char>, d: Seq<char>, x: Seq<char>)
    ensures
        occurs(shown(title, Finding::Warn(d, x)), d),
        has_suffix(shown(title, Finding::Warn(d, x)), x),
        has_suffix(shown(title, Finding::Fine(d)), d),
{
    let warn = shown(title, Finding::Warn(d, x));
    let (n, q) = ("  note  "@, "\n        "@);
    assert(occurs(warn, d)) by {
        crate::text::law_prefixes_and_pieces(n + title + q, d, q + x);
        assert(warn =~= (n + title + q) + d + (q + x));
    }
    assert(has_suffix(warn, x)) by {
        crate::text::law_prefixes_and_pieces(n + title + q + d + q, x, Seq::empty());
    }
    crate::text::law_prefixes_and_pieces("  ok    "@ + title + q, d, Seq::empty());
}

/// Who listens is found out in three steps: without the driver's port there is nobody to listen to,
/// with the port and no listener there is a warning, and else everybody is named.
pub proof fn law_who_listens_is_said(clients: Seq<char>)
    ensures
        !occurs(clients, "Controller Out"@) ==> subscribers_finding(clients) is Warn,
        occurs(clients, "Controller Out"@) ==> {
            let who = listeners(lines(clients), lines(clients).len() as int);
            &&& who.len() == 0 <==> subscribers_finding(clients) is Warn
            &&& who.len() > 0 ==> (subscribers_finding(clients) matches Finding::Fine(t) && has_suffix(
                t,
                joined(who, ", "@, who.len() as int),
            ))
        },
{
    let who = listeners(lines(clients), lines(clients).len() as int);
    let all = joined(who, ", "@, who.len() as int);
    crate::text::law_prefixes_and_pieces("subscribed: "@, all, Seq::empty());
}

/// The controller is known by its ids, with white space round them or none, in either case of the
/// letters; another id is another device.
pub proof fn law_the_controller_is_known_by_its_ids(a: Seq<char>, b: Seq<char>)
    ensures
        trimmed(a) == id_text(VID) && trimmed(b) == id_text(PID) ==> usb_is_ours(a, b),
        trimmed(a).len() != id_text(VID).len() ==> !usb_is_ours(a, b),
        trimmed(b).len() != id_text(PID).len() ==> !usb_is_ours(a, b),
        usb_is_ours(a, b) ==> same_but_case(trimmed(a), id_text(VID)) && same_but_case(
            trimmed(b),
            id_text(PID),
        ),
{
}

/// What is said of a bridged port names the port.
pub proof fn law_a_bridged_port_is_named(port: Seq<char>)
    ensures
        occurs(bridged_text(port), port),
{
    let rest = BRIDGED_MIDDLE@ + port + "\" \"YOUR-HOST:MIDI Input 1\""@;
    crate::text::law_prefixes_and_pieces("bridged to JACK as \""@, port, rest);
    assert("bridged to JACK as \""@ + port + rest =~= bridged_text(port));
}

} // verus!
