//! The panel map of the configuration window.
//!
//! The window shows every control where your hand expects it. Press something on the hardware and
//! it lights up on screen and selects itself. Drawing is done elsewhere; here is decided what is
//! selected, how each control looks, what it says, and what becomes of a request.
use crate::config::maybe_view;
use crate::ipc::{Event, PresetEntry, Reply};
use crate::learn::buttons::name_on_bit;
use crate::profile::{Control, ControlKind, Profile};
use crate::text::{
    dec, has_prefix, law_decimal_reads_back, push_dec, read_uint, same, trim, trimmed,
};
use vstd::prelude::*;

verus! {

// What is selected.

/// What the inspector is currently editing.
pub enum Selection {
    Nothing,
    Button(String),
    Pads,
    Knobs,
    Encoder,
    Strip,
    General,
}

/// What is selected, as a model.
pub enum Selected {
    Nothing,
    Button(Seq<char>),
    Pads,
    Knobs,
    Encoder,
    Strip,
    General,
}

impl View for Selection {
    type V = Selected;

    open spec fn view(&self) -> Selected {
        match *self {
            Selection::Nothing => Selected::Nothing,
            Selection::Button(n) => Selected::Button(n@),
            Selection::Pads => Selected::Pads,
            Selection::Knobs => Selected::Knobs,
            Selection::Encoder => Selected::Encoder,
            Selection::Strip => Selected::Strip,
            Selection::General => Selected::General,
        }
    }
}

/// What the panel shows of the hardware.
pub struct Panel {
    pub selection: Selection,
    /// Whether hardware activity moves the inspector to the control touched.
    pub follow_hardware: bool,
    pub knob_values: [u8; 8],
    pub encoder_value: u8,
    pub strip_value: u8,
    pub pad_values: [u8; 16],
}

/// What the panel shows, as a model.
pub struct PanelView {
    pub selection: Selected,
    pub follow_hardware: bool,
    pub knob_values: Seq<u8>,
    pub encoder_value: u8,
    pub strip_value: u8,
    pub pad_values: Seq<u8>,
}

impl View for Panel {
    type V = PanelView;

    open spec fn view(&self) -> PanelView {
        PanelView {
            selection: self.selection@,
            follow_hardware: self.follow_hardware,
            knob_values: self.knob_values@,
            encoder_value: self.encoder_value,
            strip_value: self.strip_value,
            pad_values: self.pad_values@,
        }
    }
}

/// The name of the control that an event is about, where there is one.
pub open spec fn touched(ev: Event, profile: Option<Profile>) -> Option<Seq<char>> {
    match ev {
        Event::Button { bit, .. } => match profile {
            Some(p) => name_on_bit(p.controls(), bit),
            None => None,
        },
        Event::Pad { pad, .. } => Some("pad "@ + dec(pad as nat)),
        Event::Knob { knob, .. } => Some("knob "@ + dec((knob + 1) as nat)),
        Event::Encoder { .. } => Some("encoder"@),
        Event::Strip { .. } => Some("touch strip"@),
    }
}

/// What an event selects, where the selection follows the hardware: what was pressed, not what was
/// let go.
pub open spec fn selects(ev: Event, profile: Option<Profile>) -> Option<Selected> {
    match ev {
        Event::Button { down, .. } => match touched(ev, profile) {
            Some(n) if down => Some(Selected::Button(n)),
            _ => None,
        },
        Event::Pad { down, .. } => if down {
            Some(Selected::Pads)
        } else {
            None
        },
        Event::Knob { .. } => Some(Selected::Knobs),
        Event::Encoder { .. } => Some(Selected::Encoder),
        Event::Strip { .. } => Some(Selected::Strip),
    }
}

/// The panel after an event.
pub open spec fn panel_after(v: PanelView, ev: Event, profile: Option<Profile>) -> PanelView {
    let moved = match ev {
        Event::Pad { pad, down, value } => if pad < 16 {
            PanelView {
                pad_values: v.pad_values.update(
                    pad as int,
                    if down {
                        value
                    } else {
                        0
                    },
                ),
                ..v
            }
        } else {
            v
        },
        Event::Knob { knob, value } => if knob < 8 {
            PanelView { knob_values: v.knob_values.update(knob as int, value), ..v }
        } else {
            v
        },
        Event::Encoder { value } => PanelView { encoder_value: value, ..v },
        Event::Strip { value } => PanelView { strip_value: value, ..v },
        Event::Button { .. } => v,
    };
    match selects(ev, profile) {
        Some(s) if v.follow_hardware => PanelView { selection: s, ..moved },
        _ => moved,
    }
}

/// The profile behind a reference, where there is one.
pub open spec fn profile_view(p: Option<&Profile>) -> Option<Profile> {
    match p {
        Some(p) => Some(*p),
        None => None,
    }
}

impl Panel {
    /// A panel of which nothing is known yet.
    pub fn new() -> (r: Self)
        ensures
            r@.selection is Nothing,
            r@.follow_hardware,
            r@.knob_values == Seq::new(8, |i: int| 0u8),
            r@.encoder_value == 0,
            r@.strip_value == 0,
            r@.pad_values == Seq::new(16, |i: int| 0u8),
    {
        let r = Panel {
            selection: Selection::Nothing,
            follow_hardware: true,
            knob_values: [0; 8],
            encoder_value: 0,
            strip_value: 0,
            pad_values: [0; 16],
        };
        assert(r.knob_values@ =~= Seq::new(8, |i: int| 0u8));
        assert(r.pad_values@ =~= Seq::new(16, |i: int| 0u8));
        r
    }

    /// Acts on something that the hardware did. Returns the name to light up on the map.
    pub fn on_event(&mut self, ev: Event, profile: Option<&Profile>) -> (r: Option<String>)
        requires
            ev matches Event::Knob { knob, .. } ==> knob < usize::MAX,
        ensures
            final(self)@ == panel_after(old(self)@, ev, profile_view(profile)),
            maybe_view(r) == touched(ev, profile_view(profile)),
    {
        match ev {
            Event::Button { bit, down } => {
                let named: Option<String> = match profile {
                    Some(p) => match p.button_at_bit(bit) {
                        Some((n, _)) => Some(n.clone()),
                        None => None,
                    },
                    None => None,
                };
                match named {
                    None => None,
                    Some(name) => {
                        if down && self.follow_hardware {
                            self.selection = Selection::Button(name.clone());
                        }
                        Some(name)
                    },
                }
            },
            Event::Pad { pad, down, value } => {
                if pad < 16 {
                    self.pad_values[pad as usize] = if down {
                        value
                    } else {
                        0
                    };
                    assert(self.pad_values@ =~= old(self).pad_values@.update(
                        pad as int,
                        if down {
                            value
                        } else {
                            0
                        },
                    ));
                }
                if down && self.follow_hardware {
                    self.selection = Selection::Pads;
                }
                let mut s = "pad ".to_owned();
                push_dec(&mut s, pad as u64);
                Some(s)
            },
            Event::Knob { knob, value } => {
                if knob < 8 {
                    self.knob_values[knob] = value;
                    assert(self.knob_values@ =~= old(self).knob_values@.update(
                        knob as int,
                        value,
                    ));
                }
                if self.follow_hardware {
                    self.selection = Selection::Knobs;
                }
                let mut s = "knob ".to_owned();
                push_dec(&mut s, (knob + 1) as u64);
                Some(s)
            },
            Event::Encoder { value } => {
                self.encoder_value = value;
                if self.follow_hardware {
                    self.selection = Selection::Encoder;
                }
                Some("encoder".to_owned())
            },
            Event::Strip { value } => {
                self.strip_value = value;
                if self.follow_hardware {
                    self.selection = Selection::Strip;
                }
                Some("touch strip".to_owned())
            },
        }
    }
}

/// While the selection does not follow the hardware, no event moves it.
pub proof fn law_selection_stays_put(v: PanelView, ev: Event, profile: Option<Profile>)
    requires
        !v.follow_hardware,
    ensures
        panel_after(v, ev, profile).selection == v.selection,
{
}

// How a control looks.

/// A colour: red, green, blue.
pub type Rgb = (u8, u8, u8);

/// How a control is drawn.
pub struct Look {
    /// Whether it is selected.
    pub selected: bool,
    /// Whether the config says something about it.
    pub bound: bool,
    pub fill: Rgb,
    /// The outline, which is two pixels wide where it is selected and one where it is not.
    pub stroke: Rgb,
    pub text: Rgb,
}

/// Whether a control is what is selected.
pub open spec fn is_selected(s: Selected, name: Seq<char>, kind: ControlKind) -> bool {
    match (s, kind) {
        (Selected::Button(n), ControlKind::Button) => n == name,
        (Selected::Pads, ControlKind::Pad) => true,
        (Selected::Knobs, ControlKind::Knob) => true,
        (Selected::Encoder, ControlKind::Encoder) => true,
        (Selected::Strip, ControlKind::Strip) => true,
        _ => false,
    }
}

/// How a control is drawn: one that was just touched glows, and a button that the config says
/// nothing about is dimmed.
pub open spec fn look_of(
    s: Selected,
    name: Seq<char>,
    c: Control,
    hot: bool,
    has_binding: bool,
) -> Look {
    let bound = !(c.kind is Button) || has_binding;
    Look {
        selected: is_selected(s, name, c.kind),
        bound,
        fill: if hot {
            (255, 138, 0)
        } else if c.kind is Screen {
            (18, 20, 26)
        } else if c.kind is Pad {
            (38, 42, 52)
        } else if !bound {
            (28, 28, 32)
        } else {
            (46, 50, 60)
        },
        stroke: if is_selected(s, name, c.kind) {
            (255, 138, 0)
        } else if c.led_colour is Some {
            (120, 90, 60)
        } else {
            (70, 74, 84)
        },
        text: if hot {
            (0, 0, 0)
        } else if bound {
            (220, 222, 228)
        } else {
            (110, 112, 120)
        },
    }
}

fn selected(s: &Selection, name: &str, kind: ControlKind) -> (r: bool)
    ensures
        r == is_selected(s@, name@, kind),
{
    match (s, kind) {
        (Selection::Button(n), ControlKind::Button) => same(n.as_str(), name),
        (Selection::Pads, ControlKind::Pad) => true,
        (Selection::Knobs, ControlKind::Knob) => true,
        (Selection::Encoder, ControlKind::Encoder) => true,
        (Selection::Strip, ControlKind::Strip) => true,
        _ => false,
    }
}

/// How a control is drawn, given whether it was just touched and whether the config binds it.
pub fn look(s: &Selection, name: &str, c: &Control, hot: bool, has_binding: bool) -> (r: Look)
    ensures
        r == look_of(s@, name@, *c, hot, has_binding),
{
    let chosen = selected(s, name, c.kind);
    let bound = c.kind != ControlKind::Button || has_binding;
    let fill: Rgb = if hot {
        (255, 138, 0)
    } else if c.kind == ControlKind::Screen {
        (18, 20, 26)
    } else if c.kind == ControlKind::Pad {
        (38, 42, 52)
    } else if !bound {
        (28, 28, 32)
    } else {
        (46, 50, 60)
    };
    let stroke: Rgb = if chosen {
        (255, 138, 0)
    } else if c.led_colour.is_some() {
        // Colour LEDs get a hint of one, so the mixed bank is visible.
        (120, 90, 60)
    } else {
        (70, 74, 84)
    };
    let text: Rgb = if hot {
        (0, 0, 0)
    } else if bound {
        (220, 222, 228)
    } else {
        (110, 112, 120)
    };
    Look { selected: chosen, bound, fill, stroke, text }
}

/// The value of a control that has one, out of 127. An index past the last counts as the last.
pub open spec fn level_of(v: PanelView, c: Control) -> Option<u8> {
    match c.kind {
        ControlKind::Knob => Some(
            v.knob_values[if c.index < 7 {
                c.index as int
            } else {
                7
            }],
        ),
        ControlKind::Strip => Some(v.strip_value),
        ControlKind::Encoder => Some(v.encoder_value),
        ControlKind::Pad => Some(
            v.pad_values[if c.index < 15 {
                c.index as int
            } else {
                15
            }],
        ),
        _ => None,
    }
}

/// What is written on a control.
pub open spec fn label_of(v: PanelView, c: Control) -> Seq<char> {
    match c.kind {
        ControlKind::Knob => c.label@ + "\n"@ + dec(level_of(v, c)->0 as nat),
        ControlKind::Encoder => c.label@ + "\n"@ + dec(v.encoder_value as nat),
        ControlKind::Strip => c.label@ + " "@ + dec(v.strip_value as nat),
        ControlKind::Screen => Seq::empty(),
        _ => c.label@,
    }
}

impl Panel {
    /// The value of a control that has one, out of 127.
    pub fn level(&self, c: &Control) -> (r: Option<u8>)
        ensures
            r == level_of(self@, *c),
    {
        match c.kind {
            ControlKind::Knob => {
                let i: usize = if c.index < 7 {
                    c.index
                } else {
                    7
                };
                Some(self.knob_values[i])
            },
            ControlKind::Strip => Some(self.strip_value),
            ControlKind::Encoder => Some(self.encoder_value),
            ControlKind::Pad => {
                let i: usize = if c.index < 15 {
                    c.index
                } else {
                    15
                };
                Some(self.pad_values[i])
            },
            _ => None,
        }
    }

    /// What is written on a control.
    pub fn label(&self, c: &Control) -> (r: String)
        ensures
            r@ == label_of(self@, *c),
    {
        match c.kind {
            ControlKind::Knob => {
                let mut s = c.label.clone();
                s.append("\n");
                let v: u8 = match self.level(c) {
                    Some(v) => v,
                    None => 0,
                };
                push_dec(&mut s, v as u64);
                s
            },
            ControlKind::Encoder => {
                let mut s = c.label.clone();
                s.append("\n");
                push_dec(&mut s, self.encoder_value as u64);
                s
            },
            ControlKind::Strip => {
                let mut s = c.label.clone();
                s.append(" ");
                push_dec(&mut s, self.strip_value as u64);
                s
            },
            ControlKind::Screen => {
                let s = String::new();
                assert(s@ =~= Seq::empty());
                s
            },
            _ => c.label.clone(),
        }
    }
}

/// What a click on a control selects.
pub open spec fn clicked_on(name: Seq<char>, kind: ControlKind) -> Selected {
    match kind {
        ControlKind::Button => Selected::Button(name),
        ControlKind::Pad => Selected::Pads,
        ControlKind::Knob => Selected::Knobs,
        ControlKind::Encoder => Selected::Encoder,
        ControlKind::Strip => Selected::Strip,
        ControlKind::Screen => Selected::General,
    }
}

/// What a click on a control selects.
pub fn click(name: &str, kind: ControlKind) -> (r: Selection)
    ensures
        r@ == clicked_on(name@, kind),
{
    match kind {
        ControlKind::Button => Selection::Button(name.to_owned()),
        ControlKind::Pad => Selection::Pads,
        ControlKind::Knob => Selection::Knobs,
        ControlKind::Encoder => Selection::Encoder,
        ControlKind::Strip => Selection::Strip,
        ControlKind::Screen => Selection::General,
    }
}

/// What is clicked is selected, except a screen, which stands for the general settings.
pub proof fn law_clicks_select(name: Seq<char>, kind: ControlKind)
    requires
        !(kind is Screen),
    ensures
        is_selected(clicked_on(name, kind), name, kind),
{
}

/// What is said of a control that is pointed at.
pub open spec fn tip_of(name: Seq<char>, c: Control, bound: bool) -> Seq<char> {
    name + (match c.bit {
        Some(b) => "\nbit "@ + dec(b as nat),
        None => Seq::empty(),
    }) + (match c.led {
        Some(l) => "  LED slot "@ + dec(l as nat),
        None => "  no LED"@,
    }) + (if bound {
        Seq::empty()
    } else {
        "\n\nnot bound -- click to give it a MIDI message"@
    })
}

/// What is said of a control that is pointed at.
pub fn tip(name: &str, c: &Control, bound: bool) -> (r: String)
    ensures
        r@ == tip_of(name@, *c, bound),
{
    let mut s = name.to_owned();
    if let Some(b) = c.bit {
        s.append("\nbit ");
        push_dec(&mut s, b as u64);
    }
    match c.led {
        Some(l) => {
            s.append("  LED slot ");
            push_dec(&mut s, l as u64);
        },
        None => {
            s.append("  no LED");
        },
    }
    if !bound {
        s.append("\n\nnot bound -- click to give it a MIDI message");
    }
    assert(s@ =~= tip_of(name@, *c, bound));
    s
}

/// Where a control is wired, in words.
pub open spec fn wiring_of(c: Control) -> Seq<char> {
    "bit "@ + (match c.bit {
        Some(b) => dec(b as nat),
        None => "-"@,
    }) + "  \u{b7}  "@ + (match c.led {
        Some(l) => "LED slot "@ + dec(l as nat),
        None => "no LED"@,
    }) + (match c.led_colour {
        Some(p) => ", colour palette "@ + dec(p as nat),
        None => Seq::empty(),
    })
}

/// Where a control is wired, in words.
pub fn wiring(c: &Control) -> (r: String)
    ensures
        r@ == wiring_of(*c),
{
    let mut s = "bit ".to_owned();
    match c.bit {
        Some(b) => {
            push_dec(&mut s, b as u64);
        },
        None => {
            s.append("-");
        },
    }
    s.append("  \u{b7}  ");
    match c.led {
        Some(l) => {
            s.append("LED slot ");
            push_dec(&mut s, l as u64);
        },
        None => {
            s.append("no LED");
        },
    }
    if let Some(p) = c.led_colour {
        s.append(", colour palette ");
        push_dec(&mut s, p as u64);
    }
    assert(s@ =~= wiring_of(*c));
    s
}

// The preset bar.

/// What is shown for a preset that is not saved.
pub const UNSAVED: &'static str = "(unsaved)";

/// The preset that is shown as the current one.
pub open spec fn current_of(active: Option<Seq<char>>) -> Seq<char> {
    match active {
        Some(n) => n,
        None => UNSAVED@,
    }
}

/// The preset that is shown as the current one.
pub fn current(active: &Option<String>) -> (r: String)
    ensures
        r@ == current_of(maybe_view(*active)),
{
    match active {
        Some(n) => n.clone(),
        None => UNSAVED.to_owned(),
    }
}

/// The entry of a preset in the list.
pub open spec fn preset_label_of(p: PresetEntry) -> Seq<char> {
    p.name@ + (if p.builtin {
        "  \u{b7}  built-in"@
    } else if p.shadows_builtin {
        "  \u{b7}  yours (shadows built-in)"@
    } else {
        "  \u{b7}  yours"@
    })
}

/// The entry of a preset in the list.
pub fn preset_label(p: &PresetEntry) -> (r: String)
    ensures
        r@ == preset_label_of(*p),
{
    let mut s = p.name.clone();
    if p.builtin {
        s.append("  \u{b7}  built-in");
    } else if p.shadows_builtin {
        s.append("  \u{b7}  yours (shadows built-in)");
    } else {
        s.append("  \u{b7}  yours");
    }
    s
}

/// The first of the presets from `i` on with that name.
pub open spec fn preset_named(v: Seq<PresetEntry>, name: Seq<char>, i: int) -> Option<PresetEntry>
    decreases v.len() - i,
{
    if i < 0 || i >= v.len() {
        None
    } else if v[i].name@ == name {
        Some(v[i])
    } else {
        preset_named(v, name, i + 1)
    }
}

fn find_preset<'a>(v: &'a Vec<PresetEntry>, name: &str) -> (r: Option<&'a PresetEntry>)
    ensures
        match r {
            Some(p) => preset_named(v@, name@, 0) == Some(*p),
            None => preset_named(v@, name@, 0) is None,
        },
{
    let mut i: usize = 0;
    while i < v.len()
        invariant
            i <= v@.len(),
            preset_named(v@, name@, 0) == preset_named(v@, name@, i as int),
        decreases v@.len() - i,
    {
        if same(v[i].name.as_str(), name) {
            return Some(&v[i]);
        }
        i += 1;
    }
    None
}

/// What the current preset is for, where the list says so.
pub fn current_description(v: &Vec<PresetEntry>, current: &str) -> (r: Option<String>)
    ensures
        maybe_view(r) == (match preset_named(v@, current@, 0) {
            Some(p) => Some(p.description@),
            None => None,
        }),
{
    match find_preset(v, current) {
        Some(p) => Some(p.description.clone()),
        None => None,
    }
}

/// Whether the current preset can be deleted: one of the list has its name and is not built in.
pub fn deletable(v: &Vec<PresetEntry>, current: &str) -> (r: bool)
    ensures
        r == exists|i: int|
            0 <= i < v@.len() && (#[trigger] v@[i]).name@ == current@ && !v@[i].builtin,
{
    let mut i: usize = 0;
    while i < v.len()
        invariant
            i <= v@.len(),
            forall|k: int| 0 <= k < i ==> (#[trigger] v@[k]).name@ != current@ || v@[k].builtin,
        decreases v@.len() - i,
    {
        if same(v[i].name.as_str(), current) && !v[i].builtin {
            assert(v@[i as int].name@ == current@ && !v@[i as int].builtin);
            return true;
        }
        i += 1;
    }
    false
}

/// What the fields of the save dialog start from: the current preset's name and description, and
/// nothing where it is not saved.
pub fn save_as_fields(v: &Vec<PresetEntry>, current: &str) -> (r: (String, String))
    ensures
        r.0@ == (if current@ == UNSAVED@ {
            Seq::empty()
        } else {
            current@
        }),
        r.1@ == (match preset_named(v@, current@, 0) {
            Some(p) => p.description@,
            None => Seq::empty(),
        }),
{
    let name = if same(current, UNSAVED) {
        String::new()
    } else {
        current.to_owned()
    };
    let description = match find_preset(v, current) {
        Some(p) => p.description.clone(),
        None => String::new(),
    };
    (name, description)
}

/// Whether a preset that was pasted can be imported: it has a name and is not blank.
pub fn importable(name: &str, text: &str) -> (r: bool)
    ensures
        r == (name@.len() > 0 && trimmed(text@).len() > 0),
{
    let t = trim(text);
    !name.is_empty() && !t.as_str().is_empty()
}

/// Something done to a preset from the bar.
#[derive(Debug, Clone, Copy, PartialEq, Eq, Structural)]
pub enum Deed {
    Loaded,
    Saved,
    Deleted,
    Imported,
}

/// What is said once something was done to a preset.
pub open spec fn done_text_of(deed: Deed, name: Seq<char>) -> Seq<char> {
    match deed {
        Deed::Loaded => "loaded `"@ + name + "` (previous config kept as config.toml.prev)"@,
        Deed::Saved => "saved `"@ + name + "`"@,
        Deed::Deleted => "deleted `"@ + name + "`"@,
        Deed::Imported => "imported `"@ + name + "`"@,
    }
}

/// What is said once something was done to a preset.
pub fn done_text(deed: Deed, name: &str) -> (r: String)
    ensures
        r@ == done_text_of(deed, name@),
{
    let mut s = String::new();
    match deed {
        Deed::Loaded => {
            s.append("loaded `");
        },
        Deed::Saved => {
            s.append("saved `");
        },
        Deed::Deleted => {
            s.append("deleted `");
        },
        Deed::Imported => {
            s.append("imported `");
        },
    }
    s.append(name);
    match deed {
        Deed::Loaded => {
            s.append("` (previous config kept as config.toml.prev)");
        },
        _ => {
            s.append("`");
        },
    }
    assert(s@ =~= done_text_of(deed, name@));
    s
}

// Requests.

/// What the status line says after a request, and what has to be done.
pub enum Outcome {
    /// It was carried out: say so, and read everything again.
    Done,
    /// It failed, with this message.
    Refused(String),
    /// The connection is lost, for this reason.
    Lost(String),
    /// Nothing to say.
    Unchanged,
}

/// What a reply comes to, or the reason why there was none.
pub fn outcome(reply: Result<Reply, String>) -> (r: Outcome)
    ensures
        match reply {
            Ok(Reply::Done) => r is Done,
            Ok(Reply::Error { message }) => r == Outcome::Refused(message),
            Ok(_) => r is Unchanged,
            Err(e) => r == Outcome::Lost(e),
        },
{
    match reply {
        Ok(Reply::Done) => Outcome::Done,
        Ok(Reply::Error { message }) => Outcome::Refused(message),
        Ok(_) => Outcome::Unchanged,
        Err(e) => Outcome::Lost(e),
    }
}

/// What to do when the driver cannot be reached.
#[derive(Debug, Clone, Copy, PartialEq, Eq, Structural)]
pub enum Unreachable {
    /// Start it.
    Spawn,
    /// Say that it is not running.
    GiveUp,
}

/// What to do when the driver cannot be reached: start it, but only once. Repeatedly spawning a
/// driver that is failing to start would bury the real error under a pile of children.
pub fn unreachable_driver(should_spawn: &mut bool) -> (r: Unreachable)
    ensures
        r == (if *old(should_spawn) {
            Unreachable::Spawn
        } else {
            Unreachable::GiveUp
        }),
        !*final(should_spawn),
{
    if *should_spawn {
        *should_spawn = false;
        Unreachable::Spawn
    } else {
        Unreachable::GiveUp
    }
}

// What the panel shows of an event.

/// The panel shows the value that was last reported: of the knob, the pad, the encoder or the strip
/// that an event is about, and what it showed before of every other control. A pad that was let go
/// is at 0.
pub proof fn law_the_panel_shows_what_was_reported(
    v: PanelView,
    ev: Event,
    profile: Option<Profile>,
    c: Control,
)
    requires
        v.knob_values.len() == 8,
        v.pad_values.len() == 16,
        c.kind is Knob ==> c.index < 8,
        c.kind is Pad ==> c.index < 16,
    ensures
        level_of(panel_after(v, ev, profile), c) == match (c.kind, ev) {
            (ControlKind::Knob, Event::Knob { knob, value }) if knob == c.index => Some(value),
            (ControlKind::Pad, Event::Pad { pad, down, value }) if pad == c.index => if down {
                Some(value)
            } else {
                Some(0u8)
            },
            (ControlKind::Encoder, Event::Encoder { value }) => Some(value),
            (ControlKind::Strip, Event::Strip { value }) => Some(value),
            _ => level_of(v, c),
        },
        c.kind is Button || c.kind is Screen ==> level_of(v, c) is None,
        c.kind is Knob || c.kind is Pad || c.kind is Encoder || c.kind is Strip ==> level_of(
            v,
            c,
        ) is Some,
{
}

/// While the selection follows the hardware, what is touched is selected: a knob, the encoder or the
/// strip that moves, and a pad or a button that goes down. Letting go selects nothing.
pub proof fn law_what_is_touched_is_selected(
    v: PanelView,
    ev: Event,
    profile: Option<Profile>,
    name: Seq<char>,
)
    requires
        v.follow_hardware,
    ensures
        ({
            let s = panel_after(v, ev, profile).selection;
            match ev {
                Event::Knob { .. } => is_selected(s, name, ControlKind::Knob),
                Event::Encoder { .. } => is_selected(s, name, ControlKind::Encoder),
                Event::Strip { .. } => is_selected(s, name, ControlKind::Strip),
                Event::Pad { down: true, .. } => is_selected(s, name, ControlKind::Pad),
                Event::Button { bit, down: true } => (profile matches Some(p) && name_on_bit(
                    p.controls(),
                    bit,
                ) == Some(name)) ==> is_selected(s, name, ControlKind::Button),
                _ => s == v.selection,
            }
        }),
        panel_after(v, ev, profile).follow_hardware,
{
}

/// One thing is selected at a time: a button by its name, and of the others all of a kind.
pub proof fn law_one_thing_is_selected(
    s: Selected,
    a: Seq<char>,
    b: Seq<char>,
    j: ControlKind,
    k: ControlKind,
)
    requires
        is_selected(s, a, j),
        is_selected(s, b, k),
    ensures
        j == k,
        j is Button ==> a == b,
{
}

/// A control is drawn as what it is: marked where it is selected, glowing where it was just touched,
/// and, where it is a button, dimmer while nothing is bound to it.
pub proof fn law_a_control_looks_like_what_it_is(
    s: Selected,
    name: Seq<char>,
    c: Control,
    other: Control,
    bound: bool,
)
    ensures
        look_of(s, name, c, true, bound).fill == look_of(s, name, other, true, true).fill,
        look_of(s, name, c, false, bound).fill != look_of(s, name, c, true, bound).fill,
        look_of(s, name, c, false, bound).selected == is_selected(s, name, c.kind),
        look_of(s, name, c, false, bound).bound == (bound || !(c.kind is Button)),
        c.kind is Button ==> look_of(s, name, c, false, true).fill != look_of(
            s,
            name,
            c,
            false,
            false,
        ).fill,
{
}

/// What is written on a knob, the encoder or the strip ends in the value that it stands at.
pub proof fn law_a_label_ends_in_the_value(v: PanelView, c: Control)
    requires
        c.kind is Knob || c.kind is Encoder || c.kind is Strip,
    ensures
        has_prefix(label_of(v, c), c.label@),
        read_uint(label_of(v, c).skip(c.label@.len() as int + 1), 255) == Some(
            level_of(v, c)->0 as nat,
        ),
{
    let n = level_of(v, c)->0 as nat;
    reveal_strlit("\n");
    reveal_strlit(" ");
    law_decimal_reads_back(n, 255);
    let s = label_of(v, c);
    assert(s.skip(c.label@.len() as int + 1) =~= dec(n));
    assert(s.take(c.label@.len() as int) =~= c.label@);
}

/// The preset of a name is the first with that name, and there is none where no preset has it.
pub proof fn law_a_preset_is_found_by_its_name(v: Seq<PresetEntry>, name: Seq<char>, i: int)
    requires
        0 <= i,
    ensures
        preset_named(v, name, i) matches Some(p) ==> p.name@ == name && v.contains(p),
        preset_named(v, name, i) is None <==> forall|k: int|
            i <= k < v.len() ==> (#[trigger] v[k]).name@ != name,
    decreases v.len() - i,
{
    if i < v.len() {
        law_a_preset_is_found_by_its_name(v, name, i + 1);
        assert(v[i].name@ == name || v[i].name@ != name);
    }
}

/// A touched control is named as it is on the device: knobs count from 1.
pub proof fn law_touched_controls_are_named(knob: usize, pad: u8, value: u8, down: bool)
    requires
        knob < usize::MAX,
    ensures
        touched(Event::Knob { knob, value }, None) == Some("knob "@ + dec((knob + 1) as nat)),
        touched(Event::Pad { pad, down, value }, None) == Some("pad "@ + dec(pad as nat)),
{
}

} // verus!
