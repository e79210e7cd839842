use maschine_mk3::device::{backlight_report, hidioc, uevent_matches, GET_FEATURE, RW, SET_FEATURE};
use maschine_mk3::display::font::Font;
use maschine_mk3::display::{blit, rgb, Frame, H, PIXELS, W, WHITE};
use maschine_mk3::engine::Outputs;
use maschine_mk3::config::Config;
use maschine_mk3::hid::{nibble_delta, parse_pads, wrap_delta, ControlState, PadEvent};
use maschine_mk3::leds::{colour, mono, palette_report, parse_palette, Leds, Level, Ramp, LED_COUNT};
use maschine_mk3::ui::{splash, Fonts, Surface};

#[test]
fn wrap_delta_takes_the_short_way_round() {
    // The knobs report 0..999 and roll over. One notch past the seam is a
    // small step, not a 999-unit lurch.
    assert_eq!(wrap_delta(998, 2, 1000), 4);
    assert_eq!(wrap_delta(2, 998, 1000), -4);
    assert_eq!(wrap_delta(100, 140, 1000), 40);
    assert_eq!(wrap_delta(140, 100, 1000), -40);
    assert_eq!(wrap_delta(500, 500, 1000), 0);
}

#[test]
fn wrap_delta_half_way_goes_up() {
    assert_eq!(wrap_delta(0, 500, 1000), 500);
    assert_eq!(wrap_delta(500, 0, 1000), 500);
    assert_eq!(wrap_delta(0, 501, 1000), -499);
    assert_eq!(wrap_delta(60000, 3, 7), wrap_delta(3, 3, 7));
}

#[test]
fn encoder_wraps_both_ways() {
    assert_eq!(nibble_delta(15, 0), 1);
    assert_eq!(nibble_delta(0, 15), -1);
    assert_eq!(nibble_delta(3, 5), 2);
    assert_eq!(nibble_delta(5, 3), -2);
    assert_eq!(nibble_delta(4, 4), 0);
}

#[test]
fn pad_report_stops_at_padding() {
    // one real hit, then zero padding
    let mut p = vec![0u8; 63];
    p[0] = 5;
    p[1] = 0x1f;
    p[2] = 0xff;
    let mut out = Vec::new();
    parse_pads(&p, &mut out);
    assert_eq!(out.len(), 1);
    assert_eq!(out[0].pad, 5);
    assert_eq!(out[0].event, PadEvent::NoteOn);
    assert_eq!(out[0].value, 4095);
}

#[test]
fn pad_zero_in_first_slot_is_a_real_event() {
    let mut p = vec![0u8; 63];
    p[0] = 0;
    p[1] = 0x30;
    p[2] = 0x00;
    let mut out = Vec::new();
    parse_pads(&p, &mut out);
    assert_eq!(out.len(), 1);
    assert_eq!(out[0].event, PadEvent::NoteOff);
}

#[test]
fn unknown_pads_and_events_are_skipped() {
    let p = [16, 0x10, 1, 3, 0x50, 1, 3, 0x41, 2, 9, 9];
    let mut out = vec![];
    parse_pads(&p, &mut out);
    assert_eq!(out.len(), 1);
    assert_eq!((out[0].pad, out[0].event, out[0].value), (3, PadEvent::Aftertouch, 258));
    assert!(PadEvent::PressOn.is_on() && !PadEvent::PressOn.is_off());
    assert!(PadEvent::NoteOff.is_off() && !PadEvent::Aftertouch.is_on());
}

#[test]
fn control_state_reads_knobs_little_endian() {
    let mut p = vec![0u8; 41];
    p[0] = 0b0000_0101; // buttons 0 and 2
    p[10] = 0x37;
    p[11] = 0xe7;
    p[12] = 0x03; // knob 0 = 999
    let s = ControlState::parse(&p).unwrap();
    assert!(s.button(0) && !s.button(1) && s.button(2));
    assert_eq!(s.encoder_lo, 7);
    assert_eq!(s.encoder_hi, 3);
    assert_eq!(s.knobs[0], 999);
}

#[test]
fn control_state_needs_a_whole_report() {
    assert!(ControlState::parse(&[0; 40]).is_none());
    let mut p = vec![0u8; 45];
    p[9] = 0x80;
    p[39] = 0x34;
    p[40] = 0x12;
    let s = ControlState::parse(&p).unwrap();
    assert!(s.button(79) && !s.button(80));
    assert_eq!(s.analog[6], 0x1234);
}

#[test]
fn colour_off_is_zero_regardless_of_index() {
    assert_eq!(colour(9, Level::Off), 0);
    assert_eq!(colour(0, Level::Bright), 3);
    assert_eq!(colour(3, Level::Normal), 0b1110);
}

#[test]
fn led_bytes_are_encoded() {
    assert_eq!(colour(63, Level::Dim), 0xfd);
    assert_eq!(colour(64, Level::Dim), 0x01);
    assert_eq!(mono(127), 127);
    assert_eq!(mono(200), 127);
    assert_eq!(Level::from_u8(9), Level::Bright);
    assert_eq!(Level::from_u8(0), Level::Off);
}

#[test]
fn led_writes_are_deduplicated() {
    let mut l = Leds::new();
    l.mark_published();
    l.set(4, 0);
    assert!(!l.is_dirty(), "writing the value already held must not dirty");
    l.set(4, 7);
    assert!(l.is_dirty());
}

#[test]
fn led_reports_carry_every_slot() {
    let mut l = Leds::new();
    l.set(0, 1);
    l.set(61, 2);
    l.set(62, 3);
    l.set(102, 4);
    l.set(103, 5);
    let (a, b) = l.pending().unwrap();
    assert_eq!((a.len(), a[0], a[1], a[62]), (63, 0x80, 1, 2));
    assert_eq!((b.len(), b[0], b[1], b[41]), (42, 0x81, 3, 4));
    l.mark_published();
    assert!(l.pending().is_none());
    l.all_off();
    assert!(l.is_dirty());
    assert_eq!(l.get(62), 0);
    l.mark_published();
    l.all_off();
    assert!(!l.is_dirty());
    l.raw_mut()[LED_COUNT - 1] = 9;
    assert_eq!(l.get(102), 9);
    assert_eq!(l.get(103), 0);
    assert!(l.is_dirty());
}

#[test]
fn palettes_read_back() {
    let ramp = |n: u8| Ramp([(n, 1, 2), (3, n, 4), (5, 6, n), (127, 0, n)]);
    let ramps: Vec<Ramp> = (0..17).map(ramp).collect();
    let report = palette_report(0xfe, &ramps);
    assert_eq!(report.len(), 209);
    assert_eq!(report[0], 0xfe);
    let back = parse_palette(&report);
    assert_eq!(back.len(), 17);
    for (a, b) in ramps.iter().zip(&back) {
        assert_eq!(a.0, b.0);
    }
    let high = palette_report(0xff, &[Ramp([(0xff, 0x80, 0x81); 4])]);
    assert_eq!(&high[..4], &[0xff, 0x7f, 0, 1]);
    assert!(high[13..].iter().all(|&b| b == 0));
}

#[test]
fn the_device_is_known_by_its_uevent() {
    let text = "DRIVER=hid-generic\nHID_ID=0003:000017CC:00001600\nHID_NAME=x\n";
    assert!(uevent_matches(text, 0x17cc, 0x1600));
    assert!(!uevent_matches(text, 0x17cc, 0x1601));
    assert!(uevent_matches("HID_ID=0003:17cc:1600:more", 0x17cc, 0x1600));
    assert!(!uevent_matches("HID_ID=0003:17cc", 0x17cc, 0x1600));
    assert!(!uevent_matches(" HID_ID=0003:17cc:1600", 0x17cc, 0x1600));
}

#[test]
fn ioctl_numbers_and_backlight() {
    assert_eq!(hidioc(RW, SET_FEATURE, 11), 0xc00b_4806);
    assert_eq!(hidioc(RW, GET_FEATURE, 209), 0xc0d1_4807);
    let cur = [0xf8, 1, 2, 3, 4, 5, 6, 7, 8, 9, 10];
    assert_eq!(backlight_report(0, &cur, 80, 250), vec![0xf8, 1, 2, 3, 4, 5, 6, 7, 80, 100, 10]);
    assert_eq!(backlight_report(1, &cur[..3], 5, 6), vec![0xf9, 1, 2, 0, 0, 0, 0, 0, 5, 6, 0]);
}

#[test]
fn colours_are_packed() {
    assert_eq!(rgb(255, 255, 255), WHITE);
    assert_eq!(rgb(8, 8, 10), 0x0841);
    assert_eq!(rgb(255, 138, 0), 0xfc40);
    assert_eq!(rgb(7, 3, 7), 0);
}

#[test]
fn frames_track_dirty_rows() {
    let mut f = Frame::new();
    assert!(!f.is_clean());
    f.mark_flushed();
    assert!(f.is_clean());
    assert!(f.pending(0).is_empty());
    f.put(3, 7, 0x1234);
    f.put(W, 0, 1);
    f.put(0, H, 1);
    let sent = f.pending(1);
    assert_eq!(sent.len(), 1);
    let b = &sent[0];
    assert_eq!(b.len(), 36 + 2 * W);
    assert_eq!(&b[..8], &[0x84, 0, 1, 0x60, 0, 0, 0, 0]);
    assert_eq!(&b[8..16], &[0, 0, 0, 7, 0x01, 0xe0, 0, 1]);
    assert_eq!(&b[16..24], &[2, 0, 0, 0, 0, 0, 0, 240]);
    assert_eq!(&b[24 + 6..24 + 8], &[0x12, 0x34]);
    assert_eq!(&b[b.len() - 12..], &[2, 0, 0, 0, 3, 0, 0, 0, 0x40, 0, 0, 0]);
    f.mark_flushed();
    f.rect(470, 260, 50, 50, 9);
    f.rect(usize::MAX, 0, 1, 1, 9);
    f.rect(0, 0, 0, 5, 9);
    let sent = f.pending(0);
    assert_eq!(sent.len(), 1);
    assert_eq!(sent[0].len(), 36 + 2 * 12 * W);
    assert_eq!(f.pixels_mut()[260 * W + 470], 9);
    assert_eq!(f.pixels_mut().iter().filter(|&&c| c == 9).count(), 10 * 12);
    assert_eq!(f.pending(0)[0].len(), 36 + 2 * PIXELS);
    assert_eq!(f.pending(0).len(), 1);
    f.mark_flushed();
    f.touch_all();
    assert_eq!(f.pending(0)[0].len(), 36 + 2 * PIXELS);
}

#[test]
fn each_run_of_dirty_rows_is_sent_by_itself() {
    let mut f = Frame::new();
    f.mark_flushed();
    f.rect(0, 10, 5, 3, 1);
    f.put(7, 13, 2);
    f.rect(0, 200, 5, 2, 3);
    let sent = f.pending(1);
    assert_eq!(sent.iter().map(Vec::len).collect::<Vec<_>>(), [36 + 960 * 4, 36 + 960 * 2]);
    assert_eq!(&sent[0][8..16], &[0, 0, 0, 10, 0x01, 0xe0, 0, 4]);
    assert_eq!(&sent[1][8..16], &[0, 0, 0, 200, 0x01, 0xe0, 0, 2]);
    assert_eq!(&sent[1][24..26], &[0, 3]);
}

#[test]
fn outlines_are_one_pixel_wide() {
    let mut f = Frame::new();
    f.frame_rect(10, 10, 4, 3, 5);
    let px = f.pixels_mut();
    assert_eq!(px.iter().filter(|&&c| c == 5).count(), 10);
    assert_eq!(px[11 * W + 11], 0);
    f.clear(7);
    f.frame_rect(0, 0, 0, 9, 5);
    assert!(f.pixels_mut().iter().all(|&c| c == 7));
}

#[test]
fn rectangles_are_refused_with_a_reason() {
    assert_eq!(blit(0, 0, 0, 0, 5, &[]).unwrap(), None);
    assert_eq!(
        blit(0, 0, 0, 3, 2, &[1, 2]).unwrap_err().message(),
        "blit: 2 pixels supplied for 3x2"
    );
    assert_eq!(
        blit(0, 0, 0, 3, 1, &[1, 2, 3]).unwrap_err().message(),
        "blit: pixel count 3 must be even"
    );
    let b = blit(1, 2, 3, 2, 1, &[0xabcd, 0x0102, 9]).unwrap().unwrap();
    assert_eq!(b.len(), 40);
    assert_eq!(&b[24..28], &[0xab, 0xcd, 1, 2]);
}

fn font(w: usize, h: usize) -> Font {
    // `A` is solid, `B` has ink in its top left corner only.
    let solid = vec![true; w * h];
    let mut corner = vec![false; w * h];
    corner[0] = true;
    Font { w, h, first: 'A', glyphs: vec![solid, corner] }
}

#[test]
fn text_is_drawn_glyph_by_glyph() {
    let small = font(2, 3);
    let mut f = Frame::new();
    assert_eq!(f.text(5, 6, &small, 1, 8, "AB?"), 11);
    let px = f.pixels_mut();
    assert_eq!(px.iter().filter(|&&c| c == 8).count(), 7);
    assert_eq!((px[6 * W + 5], px[8 * W + 6], px[6 * W + 7], px[6 * W + 8]), (8, 8, 8, 0));
    f.clear(0);
    assert_eq!(f.text(0, 0, &small, 3, 8, "B"), 6);
    assert_eq!(f.pixels_mut().iter().filter(|&&c| c == 8).count(), 9);
    f.clear(0);
    assert_eq!(f.text(478, 0, &small, 1, 8, "AAAA"), 480, "nothing past the edge is drawn");
    f.clear(0);
    f.text_centred(10, 8, 0, &small, 1, 8, "A");
    assert_eq!(f.pixels_mut()[13], 8);
    assert_eq!(f.pixels_mut()[12], 0);
    f.clear(0);
    f.text_centred(10, 1, 0, &small, 1, 8, "A");
    assert_eq!(f.pixels_mut()[10], 8);
}

#[test]
fn the_surface_draws_only_what_changed() {
    let fonts = Fonts { small: font(6, 8), large: font(12, 16) };
    let cfg = Config::default();
    let mut out = Outputs::default();
    let (mut left, mut right) = (Frame::new(), Frame::new());
    let mut s = Surface::new();
    s.set_status("A");
    s.update(&cfg, &out, &fonts, &mut left, &mut right);
    assert_eq!(left.pixels_mut()[0], 0x18c4, "the header");
    assert_eq!(left.pixels_mut()[40 * W + 120], 0x3187, "the rule between cells");
    left.mark_flushed();
    right.mark_flushed();
    s.update(&cfg, &out, &fonts, &mut left, &mut right);
    assert!(left.is_clean() && right.is_clean());

    out.knobs[5] = 127;
    s.update(&cfg, &out, &fonts, &mut left, &mut right);
    assert!(left.is_clean());
    assert!(!right.is_clean());
    // Knob 5 is the second of the right screen; its bar is full.
    assert_eq!(right.pixels_mut()[228 * W + 121 + 12 + 92], 0xfc40);
    right.mark_flushed();
    out.knobs[5] = 200;
    s.update(&cfg, &out, &fonts, &mut left, &mut right);
    assert!(right.is_clean(), "values above 127 show as 127");

    s.set_status("A");
    s.update(&cfg, &out, &fonts, &mut left, &mut right);
    assert!(right.is_clean());
    s.set_status("B");
    s.update(&cfg, &out, &fonts, &mut left, &mut right);
    assert!(!right.is_clean());
    s.invalidate();
    s.update(&cfg, &out, &fonts, &mut left, &mut right);
    assert!(!left.is_clean());
}

#[test]
fn one_knob_move_is_cheap() {
    let fonts = Fonts { small: font(12, 16), large: font(18, 21) };
    let cfg = Config::default();
    let mut out = Outputs::default();
    let (mut left, mut right) = (Frame::new(), Frame::new());
    let mut s = Surface::new();
    s.update(&cfg, &out, &fonts, &mut left, &mut right);
    left.mark_flushed();
    right.mark_flushed();
    out.knobs[2] = 90;
    s.update(&cfg, &out, &fonts, &mut left, &mut right);
    assert!(right.is_clean());
    let sent = left.pending(0);
    assert_eq!(sent.iter().map(Vec::len).collect::<Vec<_>>(), [36 + 960 * 21, 36 + 960 * 10]);

    // What is on the screen is what drawing all of it would give.
    let (mut whole, mut other) = (Frame::new(), Frame::new());
    Surface::new().update(&cfg, &out, &fonts, &mut whole, &mut other);
    assert!(left.pixels_mut() == whole.pixels_mut());

    // Another controller number needs the whole cell.
    left.mark_flushed();
    let mut renamed = cfg.clone();
    renamed.knobs.ccs[2] = 99;
    s.update(&renamed, &out, &fonts, &mut left, &mut right);
    assert_eq!(left.pending(0)[0].len(), 36 + 960 * 222);
}

#[test]
fn the_startup_card_is_drawn() {
    let fonts = Fonts { small: font(6, 8), large: font(12, 16) };
    let mut f = Frame::new();
    splash(&mut f, &fonts, "A", "A");
    assert_eq!(f.pixels_mut()[96 * W + 234], 0xfc40);
    assert_eq!(f.pixels_mut()[144 * W + 237], 0xa535);
    assert_eq!(f.pixels_mut()[0], 0x0841);
}
