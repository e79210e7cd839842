//! The texts that the driver ships with.
use maschine_mk3::config::{Binding, Config};
use maschine_mk3::doc::{save_config, Document};
use maschine_mk3::preset::describe;

#[test]
fn editing_the_config_keeps_its_comments() {
    let count = |t: &str| t.lines().filter(|l| l.trim_start().starts_with('#')).count();
    let before = count(STARTER_TOML);
    assert!(before > 50, "the shipped file is mostly documentation");

    let mut settings = STARTER_TOML.parse::<toml::Table>().unwrap();
    let pads = settings.get_mut("pads").and_then(toml::Value::as_table_mut).unwrap();
    pads.insert("channel".into(), toml::Value::Integer(3));
    let mut c = Config::default();
    for (name, send) in settings.get("buttons").and_then(toml::Value::as_table).unwrap() {
        c.buttons.insert(name.clone(), Binding::Send(send.as_str().unwrap().into()));
    }
    let after = save_config(STARTER_TOML, &settings.to_string(), &c.buttons).unwrap();

    assert_eq!(count(&after), before, "editing must not eat the documentation");
    assert_eq!(Document::parse(&after).unwrap().get_int("pads", "channel"), 3);
    assert_eq!(after, STARTER_TOML.replace("channel = 10\n", "channel = 3\n").replace("0x1f", "31"));
}

#[test]
fn every_shipped_preset_describes_itself() {
    for (name, text) in BUILTIN {
        let d = describe(text);
        assert!(
            !d.is_empty(),
            "preset `{name}` has no description, so a chooser cannot say what it is"
        );
    }
}

const BUILTIN: &[(&str, &str)] = &[
    ("default", DEFAULT),
    ("drums", DRUMS),
    ("keys", KEYS),
    ("mixer", MIXER),
    ("minimal", MINIMAL),
];

const STARTER_TOML: &str = r##"# What each control of the Maschine MK3 does.
#
# The driver reads this file again whenever it changes on disk. A file that it cannot read is
# refused with the reason, and the settings before it stay in force. What is left out keeps its
# default. Which bit a button is, and which LED, is not here but in the device profile.

# Process-wide settings.
[general]
# The name of the ALSA sequencer client, as a host lists it.
client_name = "Maschine MK3"
# The port that a host reads from.
out_port = "Controller Out"
# The port that a host writes to for feedback.
in_port = "Controller In"
# SCHED_FIFO priority of the input thread; 0 disables real-time.
realtime_priority = 80
# Lock the memory, so that no page fault delays an input.
lock_memory = true
# TCP port of the browser page; 0 disables it. The window, mk3-gui, needs no port.
gui_port = 0
# The address that the page listens on.
gui_bind = "127.0.0.1"
# Destinations to connect the output to at startup, e.g. ["REAPER"]. Any part of "client:port"
# will do, in upper or lower case. Empty waits for hosts to subscribe.
connect_to = []

# The two screens.
[display]
enabled = true
# Backlight and contrast, 0..100.
brightness = 80
contrast = 50
# At most this many redraws a second.
fps = 30
# What the title bar of the left screen says.
title = "MASCHINE MK3"

[leds]
enabled = true
# Brightness of an unlit and of a held button, 0..127.
button_idle = 10
button_active = 127
# At most this many LED reports a second.
fps = 60

# The sixteen pads.
[pads]
# MIDI channel, 1..16.
channel = 10
# One note per pad. The device counts pads from the top left, so that this puts the lowest note
# bottom left.
notes = [48, 49, 50, 51, 44, 45, 46, 47, 40, 41, 42, 43, 36, 37, 38, 39]
# How a hit becomes a velocity: linear | soft | hard | fixed
curve = "linear"
# The velocity of every hit when the curve is fixed.
fixed_velocity = 100
# Raw hit for velocity 127. The pads do not use the whole 12 bits: a hard hit is about 1900.
# Lower it for a lighter touch.
velocity_max = 2000
# Raw pressure for aftertouch 127.
aftertouch_max = 4095
# Pressure climbs late, so its curve lifts the quiet end.
aftertouch_curve = "soft"
# Pressure below this is not sent.
aftertouch_floor = 64
# off | poly | channel
aftertouch = "poly"
# Ignore hits below this, such as those of neighbouring pads.
threshold = 0
# Whether a finger that rests on a pad plays a note.
press_sends_note = false
# Palette indices of an idle and of a struck pad.
idle_colour = 11
active_colour = 17
# Brightness of an idle pad, 0..3.
idle_level = 1

# The eight knobs under the screens.
[knobs]
channel = 1
# One controller number per knob.
ccs = [16, 17, 18, 19, 20, 21, 22, 23]
# absolute | relative | accumulate. The knobs are endless: accumulate gives them end stops.
mode = "accumulate"
# How a host reads relative movement: twos | bin-offset | sign-bit
relative_format = "twos"
# Send 14 bits, as a controller and the one 32 above it.
high_resolution = false
# In absolute mode, jump | pickup: wait until the knob passes the value the host has.
pickup = "jump"
# Ignore movements smaller than this; the knobs are noisy at rest.
deadband = 2
# How far to turn for the whole range; 1000 is one turn.
travel = 1000
# Where each knob starts.
initial = 64

# The push encoder.
[encoder]
channel = 1
cc = 24
mode = "absolute"
relative_format = "twos"
# How much one click is.
step = 2
initial = 64

# The touch strip and the meter beside it.
[touchstrip]
enabled = true
channel = 1
cc = 1
# Whether the meter follows the finger, and whether from the far end.
leds = true
led_reversed = false
# A raw byte, not a palette index: see `mk3-learn probe strip`.
led_value = 0x1f

# The pedal jack, for two switches or expression pedals.
[pedal]
enabled = false
channel = 1
ccs = [64, 67]
# A switch sends 0 or 127; what is above the threshold is down.
switch = true
switch_threshold = 2048

# What each button sends: none | note CH N | cc CH N [VAL] | pc CH N | start | stop | continue
#
# The short form is what to send. The long form says how, too:
#   play = { send = "cc 16 45", mode = "toggle", led = "midi" }
# A mode is momentary, toggle or trigger. An LED does follow, midi, always or off.
[buttons]
shift = "cc 16 6"
group_a = "cc 16 8"
group_b = "cc 16 9"
group_c = "cc 16 10"
group_d = "cc 16 11"
group_e = "cc 16 12"
group_f = "cc 16 13"
group_g = "cc 16 14"
group_h = "cc 16 15"
notes = "cc 16 16"
volume = "cc 16 17"
swing = "cc 16 18"
tempo = "cc 16 19"
lock = "cc 16 21"
pad_mode = "cc 16 24"
keyboard = "cc 16 25"
chords = "cc 16 26"
step = "cc 16 27"
fixed_vel = "cc 16 28"
scene = "cc 16 29"
pattern = "cc 16 30"
events = "cc 16 31"
variation = "cc 16 33"
duplicate = "cc 16 34"
select = "cc 16 35"
solo = "cc 16 36"
mute = "cc 16 37"
pitch = "cc 16 38"
mod = "cc 16 39"
perform = "cc 16 40"
restart = "cc 16 41"
erase = "cc 16 42"
tap = "cc 16 43"
follow = "cc 16 44"
play = "cc 16 45"
rec = "cc 16 46"
stop = "cc 16 47"
macro = "cc 16 48"
settings = "cc 16 49"
arrow_right = "cc 16 50"
sampling = "cc 16 51"
mixer = "cc 16 52"
plugin = "cc 16 53"
channel_midi = "cc 16 56"
arranger = "cc 16 57"
browser = "cc 16 58"
arrow_left = "cc 16 59"
file = "cc 16 60"
auto = "cc 16 61"
screen_1 = "cc 16 64"
screen_2 = "cc 16 65"
screen_3 = "cc 16 66"
screen_4 = "cc 16 67"
screen_5 = "cc 16 68"
screen_6 = "cc 16 69"
screen_7 = "cc 16 70"
screen_8 = "cc 16 7"
encoder_touch = "none"
knob_1_touch = "none"
knob_2_touch = "none"
knob_3_touch = "none"
knob_4_touch = "none"
knob_5_touch = "none"
knob_6_touch = "none"
knob_7_touch = "none"
knob_8_touch = "none"
"##;

const DEFAULT: &str = r##"[preset]
name = "default"
description = "Every control mapped: pads on channel 10, knobs on 1, buttons on 16."

# What each control of the Maschine MK3 does. Reloaded whenever it changes on disk.

# Process-wide settings.
[general]
# ALSA sequencer client and port names, as a host lists them.
client_name = "Maschine MK3"
out_port = "Controller Out"
in_port = "Controller In"
# SCHED_FIFO priority of the input thread; 0 disables real-time.
realtime_priority = 80
lock_memory = true
# TCP port of the browser page; 0 disables it.
gui_port = 0
gui_bind = "127.0.0.1"
# Destinations to connect the output to at startup, e.g. ["REAPER"].
connect_to = []

[display]
enabled = true
# 0..100
brightness = 80
contrast = 50
fps = 30
title = "MASCHINE MK3"

[leds]
enabled = true
# Brightness of an unlit and of a held button, 0..127.
button_idle = 10
button_active = 127
fps = 60

[pads]
# MIDI channel, 1..16.
channel = 10
# One note per pad; the device counts pads from the top left.
notes = [48, 49, 50, 51, 44, 45, 46, 47, 40, 41, 42, 43, 36, 37, 38, 39]
# linear | soft | hard | fixed
curve = "linear"
fixed_velocity = 100
# Raw hit for velocity 127. The pads do not use the whole 12 bits.
velocity_max = 2000
# Raw pressure for aftertouch 127, and what to ignore below.
aftertouch_max = 4095
aftertouch_curve = "soft"
aftertouch_floor = 64
# off | poly | channel
aftertouch = "poly"
# Ignore hits below this.
threshold = 0
press_sends_note = false
idle_colour = 11
active_colour = 17
# 0..3
idle_level = 1

[knobs]
channel = 1
ccs = [16, 17, 18, 19, 20, 21, 22, 23]
# The knobs are endless: accumulate gives them end stops.
mode = "accumulate"
relative_format = "twos"
high_resolution = false
pickup = "jump"
deadband = 2
travel = 1000
initial = 64

[encoder]
channel = 1
cc = 24
mode = "absolute"
relative_format = "twos"
step = 2
initial = 64

[touchstrip]
enabled = true
channel = 1
cc = 1
leds = true
led_reversed = false
# A raw byte, not a palette index: see `mk3-learn probe strip`.
led_value = 0x1f

[pedal]
enabled = false
channel = 1
ccs = [64, 67]
switch = true
switch_threshold = 2048

# What each button sends: none | note CH N | cc CH N [VAL] | pc CH N | start | stop | continue
[buttons]
shift = "cc 16 6"
group_a = "cc 16 8"
group_b = "cc 16 9"
group_c = "cc 16 10"
group_d = "cc 16 11"
group_e = "cc 16 12"
group_f = "cc 16 13"
group_g = "cc 16 14"
group_h = "cc 16 15"
notes = "cc 16 16"
volume = "cc 16 17"
swing = "cc 16 18"
tempo = "cc 16 19"
lock = "cc 16 21"
pad_mode = "cc 16 24"
keyboard = "cc 16 25"
chords = "cc 16 26"
step = "cc 16 27"
fixed_vel = "cc 16 28"
scene = "cc 16 29"
pattern = "cc 16 30"
events = "cc 16 31"
variation = "cc 16 33"
duplicate = "cc 16 34"
select = "cc 16 35"
solo = "cc 16 36"
mute = "cc 16 37"
pitch = "cc 16 38"
mod = "cc 16 39"
perform = "cc 16 40"
restart = "cc 16 41"
erase = "cc 16 42"
tap = "cc 16 43"
follow = "cc 16 44"
play = "cc 16 45"
rec = "cc 16 46"
stop = "cc 16 47"
macro = "cc 16 48"
settings = "cc 16 49"
arrow_right = "cc 16 50"
sampling = "cc 16 51"
mixer = "cc 16 52"
plugin = "cc 16 53"
channel_midi = "cc 16 56"
arranger = "cc 16 57"
browser = "cc 16 58"
arrow_left = "cc 16 59"
file = "cc 16 60"
auto = "cc 16 61"
screen_1 = "cc 16 64"
screen_2 = "cc 16 65"
screen_3 = "cc 16 66"
screen_4 = "cc 16 67"
screen_5 = "cc 16 68"
screen_6 = "cc 16 69"
screen_7 = "cc 16 70"
screen_8 = "cc 16 7"
encoder_touch = "none"
knob_1_touch = "none"
knob_2_touch = "none"
knob_3_touch = "none"
knob_4_touch = "none"
knob_5_touch = "none"
knob_6_touch = "none"
knob_7_touch = "none"
knob_8_touch = "none"
"##;

const DRUMS: &str = r##"[preset]
name = "drums"
description = "General MIDI kit on the pads, transport on the buttons, knobs as a small mixer."

[pads]
channel = 10
notes = [49, 57, 51, 53, 48, 47, 45, 43, 42, 44, 46, 39, 36, 38, 37, 56]
aftertouch = "off"

[knobs]
ccs = [7, 10, 91, 93, 71, 74, 72, 73]

[buttons]
shift = "none"
group_a = "none"
group_b = "none"
group_c = "none"
group_d = "none"
group_e = "none"
group_f = "none"
group_g = "none"
group_h = "none"
notes = "none"
volume = "none"
swing = "none"
tempo = "none"
lock = "none"
pad_mode = "none"
keyboard = "none"
chords = "none"
step = "none"
fixed_vel = "none"
scene = "none"
pattern = "none"
events = "none"
variation = "none"
duplicate = "none"
select = "none"
solo = "none"
mute = "none"
pitch = "none"
mod = "none"
perform = "none"
restart = "continue"
erase = "none"
tap = "none"
follow = "none"
play = "start"
rec = "none"
stop = "stop"
macro = "none"
settings = "none"
arrow_right = "none"
sampling = "none"
mixer = "none"
plugin = "none"
channel_midi = "none"
arranger = "none"
browser = "none"
arrow_left = "none"
file = "none"
auto = "none"
screen_1 = "none"
screen_2 = "none"
screen_3 = "none"
screen_4 = "none"
screen_5 = "none"
screen_6 = "none"
screen_7 = "none"
screen_8 = "none"
encoder_touch = "none"
knob_1_touch = "none"
knob_2_touch = "none"
knob_3_touch = "none"
knob_4_touch = "none"
knob_5_touch = "none"
knob_6_touch = "none"
knob_7_touch = "none"
knob_8_touch = "none"
"##;

const KEYS: &str = r##"[preset]
name = "keys"
description = "Chromatic notes from C2, polyphonic aftertouch on the soft curve, synth CCs on the knobs."

[pads]
channel = 1
notes = [48, 49, 50, 51, 44, 45, 46, 47, 40, 41, 42, 43, 36, 37, 38, 39]
aftertouch = "poly"
aftertouch_curve = "soft"

[knobs]
ccs = [74, 71, 73, 75, 72, 70, 91, 93]

[touchstrip]
cc = 1

[buttons]
shift = "none"
group_a = "none"
group_b = "none"
group_c = "none"
group_d = "none"
group_e = "none"
group_f = "none"
group_g = "none"
group_h = "none"
notes = "none"
volume = "none"
swing = "none"
tempo = "none"
lock = "none"
pad_mode = "none"
keyboard = "none"
chords = "none"
step = "none"
fixed_vel = "none"
scene = "none"
pattern = "none"
events = "none"
variation = "none"
duplicate = "none"
select = "none"
solo = "none"
mute = "none"
pitch = "none"
mod = "none"
perform = "none"
restart = "continue"
erase = "none"
tap = "none"
follow = "none"
play = "start"
rec = "none"
stop = "stop"
macro = "none"
settings = "none"
arrow_right = "none"
sampling = "none"
mixer = "none"
plugin = "none"
channel_midi = "none"
arranger = "none"
browser = "none"
arrow_left = "none"
file = "none"
auto = "none"
screen_1 = "none"
screen_2 = "none"
screen_3 = "none"
screen_4 = "none"
screen_5 = "none"
screen_6 = "none"
screen_7 = "none"
screen_8 = "none"
encoder_touch = "none"
knob_1_touch = "none"
knob_2_touch = "none"
knob_3_touch = "none"
knob_4_touch = "none"
knob_5_touch = "none"
knob_6_touch = "none"
knob_7_touch = "none"
knob_8_touch = "none"
"##;

const MIXER: &str = r##"[preset]
name = "mixer"
description = "Eight channel strips: knobs are level, group buttons are latching mutes."

[knobs]
ccs = [7, 8, 9, 10, 11, 12, 13, 14]

[buttons]
shift = "none"
group_a = { send = "cc 1 40", mode = "toggle" }
group_b = { send = "cc 1 41", mode = "toggle" }
group_c = { send = "cc 1 42", mode = "toggle" }
group_d = { send = "cc 1 43", mode = "toggle" }
group_e = { send = "cc 1 44", mode = "toggle" }
group_f = { send = "cc 1 45", mode = "toggle" }
group_g = { send = "cc 1 46", mode = "toggle" }
group_h = { send = "cc 1 47", mode = "toggle" }
notes = "none"
volume = "none"
swing = "none"
tempo = "none"
lock = "none"
pad_mode = "none"
keyboard = "none"
chords = "none"
step = "none"
fixed_vel = "none"
scene = "none"
pattern = "none"
events = "none"
variation = "none"
duplicate = "none"
select = "none"
solo = "none"
mute = "none"
pitch = "none"
mod = "none"
perform = "none"
restart = "continue"
erase = "none"
tap = "none"
follow = "none"
play = "start"
rec = "none"
stop = "stop"
macro = "none"
settings = "none"
arrow_right = "none"
sampling = "none"
mixer = "none"
plugin = "none"
channel_midi = "none"
arranger = "none"
browser = "none"
arrow_left = "none"
file = "none"
auto = "none"
screen_1 = "none"
screen_2 = "none"
screen_3 = "none"
screen_4 = "none"
screen_5 = "none"
screen_6 = "none"
screen_7 = "none"
screen_8 = "none"
encoder_touch = "none"
knob_1_touch = "none"
knob_2_touch = "none"
knob_3_touch = "none"
knob_4_touch = "none"
knob_5_touch = "none"
knob_6_touch = "none"
knob_7_touch = "none"
knob_8_touch = "none"
"##;

const MINIMAL: &str = r##"[preset]
name = "minimal"
description = "Pads and knobs only; every button listed but silent."

[buttons]
shift = "none"
group_a = "none"
group_b = "none"
group_c = "none"
group_d = "none"
group_e = "none"
group_f = "none"
group_g = "none"
group_h = "none"
notes = "none"
volume = "none"
swing = "none"
tempo = "none"
lock = "none"
pad_mode = "none"
keyboard = "none"
chords = "none"
step = "none"
fixed_vel = "none"
scene = "none"
pattern = "none"
events = "none"
variation = "none"
duplicate = "none"
select = "none"
solo = "none"
mute = "none"
pitch = "none"
mod = "none"
perform = "none"
restart = "none"
erase = "none"
tap = "none"
follow = "none"
play = "none"
rec = "none"
stop = "none"
macro = "none"
settings = "none"
arrow_right = "none"
sampling = "none"
mixer = "none"
plugin = "none"
channel_midi = "none"
arranger = "none"
browser = "none"
arrow_left = "none"
file = "none"
auto = "none"
screen_1 = "none"
screen_2 = "none"
screen_3 = "none"
screen_4 = "none"
screen_5 = "none"
screen_6 = "none"
screen_7 = "none"
screen_8 = "none"
encoder_touch = "none"
knob_1_touch = "none"
knob_2_touch = "none"
knob_3_touch = "none"
knob_4_touch = "none"
knob_5_touch = "none"
knob_6_touch = "none"
knob_7_touch = "none"
knob_8_touch = "none"
"##;
