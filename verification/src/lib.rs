//! Userspace driver for the Native Instruments Maschine MK3 on Linux.
pub mod behaviour;
pub mod comments;
pub mod config;
pub mod daemon;
pub mod device;
pub mod diagnose;
pub mod display;
pub mod doc;
pub mod edit;
pub mod engine;
pub mod gui;
pub mod hid;
pub mod ipc;
pub mod learn;
pub mod leds;
pub mod midi;
pub mod namemap;
pub mod panel;
pub mod playing;
pub mod preset;
pub mod profile;
pub mod single;
pub mod text;
pub mod tree;
pub mod ui;
pub mod wording;
use vstd::prelude::*;

verus! {

/// USB vendor id of Native Instruments.
pub const VID: u16 = 0x17cc;
/// USB product id of the Maschine MK3.
pub const PID: u16 = 0x1600;

} // verus!
