//! Finding the Maschine MK3's HID interface, and the bytes of its feature reports.
//!
//! The `hidraw` node is opened and read elsewhere; here is how it is recognised and what is sent
//! to it.
use crate::text::{
    after_prefix, eq_ignore_case, hex, lines, parts, push_hex, same_but_case, split_lines, split_on,
    strip_prefix, trim_leading, views, without_leading,
};
use vstd::prelude::*;

verus! {

/// An id as four hexadecimal digits.
pub open spec fn id_text(id: u16) -> Seq<char> {
    hex(id as nat, 4)
}

fn id_string(id: u16) -> (r: String)
    ensures
        r@ == id_text(id),
{
    let mut s = String::new();
    push_hex(&mut s, id as u64, 4);
    assert(s@ =~= id_text(id));
    s
}

/// Whether a field of a `HID_ID` holds an id: the same digits, whatever their case and however
/// many zeros stand in front.
pub open spec fn field_is(field: Seq<char>, id: u16) -> bool {
    same_but_case(without_leading(field, '0'), without_leading(id_text(id), '0'))
}

fn field_matches(field: &str, id: u16) -> (r: bool)
    ensures
        r == field_is(field@, id),
{
    let want = id_string(id);
    let a = trim_leading(field, '0');
    let b = trim_leading(want.as_str(), '0');
    eq_ignore_case(a.as_str(), b.as_str())
}

/// Whether a line of a `uevent` file names the device: `HID_ID=` and three fields between colons,
/// of which the second is the vendor and the third the product.
pub open spec fn line_names(line: Seq<char>, vendor: u16, product: u16) -> bool {
    match after_prefix(line, "HID_ID="@) {
        Some(id) => {
            let f = parts(id, ':');
            f.len() >= 3 && field_is(f[1], vendor) && field_is(f[2], product)
        },
        None => false,
    }
}

/// Whether a `uevent` file is that of the device.
pub open spec fn uevent_names(text: Seq<char>, vendor: u16, product: u16) -> bool {
    exists|i: int|
        0 <= i < lines(text).len() && line_names(#[trigger] lines(text)[i], vendor, product)
}

/// Whether a `uevent` file is that of the device. `HID_ID` looks like "0003:000017CC:00001600".
pub fn uevent_matches(text: &str, vendor: u16, product: u16) -> (r: bool)
    ensures
        r == uevent_names(text@, vendor, product),
{
    let ls = split_lines(text);
    let ghost all = lines(text@);
    let mut i: usize = 0;
    while i < ls.len()
        invariant
            views(ls@) == all,
            all == lines(text@),
            i <= ls@.len(),
            forall|k: int| 0 <= k < i ==> !line_names(#[trigger] all[k], vendor, product),
        decreases ls@.len() - i,
    {
        assert(all[i as int] == ls@[i as int]@);
        if let Some(id) = strip_prefix(ls[i].as_str(), "HID_ID=") {
            let f = split_on(id.as_str(), ':');
            assert(views(f@).len() == f@.len());
            if f.len() >= 3 {
                assert(views(f@)[1] == f@[1]@ && views(f@)[2] == f@[2]@);
                if field_matches(f[1].as_str(), vendor) && field_matches(f[2].as_str(), product) {
                    assert(line_names(all[i as int], vendor, product));
                    return true;
                }
            }
        }
        i += 1;
    }
    assert(all.len() == ls@.len());
    false
}

/// What is said when there is no node for the device.
pub const NO_NODE_TEXT: &'static str =
    "no hidraw node for 17CC:1600 -- is the Maschine MK3 plugged in?";

/// The request number of a HID `ioctl`: direction, size of the buffer, `H`, and the function.
pub open spec fn ioctl_number(dir: u32, nr: u32, size: u32) -> u32 {
    (dir << 30) | (size << 16) | (0x48u32 << 8) | nr
}

/// The request number of a HID `ioctl` on a buffer of `size` bytes.
pub fn hidioc(dir: u32, nr: u32, size: usize) -> (r: u64)
    ensures
        r == ioctl_number(dir, nr, size as u32),
{
    (((dir << 30) | ((#[verifier::truncate] (size as u32)) << 16) | (0x48u32 << 8) | nr) as u64)
}

/// The parts of a request number do not overlap, for every size and function that it has room for.
pub proof fn law_ioctl_fields(dir: u32, nr: u32, size: u32)
    requires
        dir < 4,
        nr < 256,
        size < 0x4000,
    ensures
        ioctl_number(dir, nr, size) == dir * 0x4000_0000 + size * 0x1_0000 + 0x4800 + nr,
{
    assert((dir << 30) | (size << 16) | (0x48u32 << 8) | nr == dir * 0x4000_0000 + size * 0x1_0000
        + 0x4800 + nr) by (bit_vector)
        requires
            dir < 4,
            nr < 256,
            size < 0x4000,
    ;
}

/// Both directions: the kernel reads the buffer and may write it.
pub const RW: u32 = 3;

/// Function of the request that sends a feature report.
pub const SET_FEATURE: u32 = 0x06;

/// Function of the request that reads a feature report.
pub const GET_FEATURE: u32 = 0x07;

/// Bytes of a display's feature report, with its id.
pub const BACKLIGHT_LEN: usize = 11;

/// The feature report that describes a display: the left one, or the right one.
pub open spec fn backlight_id_of(index: u8) -> u8 {
    if index == 0 {
        0xf8
    } else {
        0xf9
    }
}

/// The feature report that describes a display.
pub fn backlight_id(index: u8) -> (r: u8)
    ensures
        r == backlight_id_of(index),
{
    if index == 0 {
        0xf8
    } else {
        0xf9
    }
}

/// Byte `k` of the report that sets a display's brightness and contrast, given the current one:
/// what is not set is echoed back, and what the current one lacks is 0.
pub open spec fn backlight_byte(
    index: u8,
    cur: Seq<u8>,
    brightness: u8,
    contrast: u8,
    k: int,
) -> u8 {
    if k == 0 {
        backlight_id_of(index)
    } else if k == 8 {
        if brightness < 100 {
            brightness
        } else {
            100
        }
    } else if k == 9 {
        if contrast < 100 {
            contrast
        } else {
            100
        }
    } else if k < cur.len() {
        cur[k]
    } else {
        0
    }
}

/// The report that sets brightness and contrast (both 0..=100) of one display.
///
/// Feature reports `0xf8` and `0xf9` describe the left and right panel. They read back as `w:u16
/// h:u16 bpp:u8 ?:u8 ?:u8 brightness:u8 contrast:u8 ?:u8`, so the geometry fields are read first
/// and echoed back unchanged.
pub fn backlight_report(index: u8, cur: &[u8], brightness: u8, contrast: u8) -> (r: Vec<u8>)
    ensures
        r@ == Seq::new(
            BACKLIGHT_LEN as nat,
            |k: int| backlight_byte(index, cur@, brightness, contrast, k),
        ),
{
    let mut out: Vec<u8> = Vec::new();
    let mut k: usize = 0;
    while k < BACKLIGHT_LEN
        invariant
            k <= BACKLIGHT_LEN,
            out@.len() == k,
            forall|i: int|
                0 <= i < k ==> #[trigger] out@[i] == backlight_byte(
                    index,
                    cur@,
                    brightness,
                    contrast,
                    i,
                ),
        decreases BACKLIGHT_LEN - k,
    {
        let b: u8 = if k == 0 {
            backlight_id(index)
        } else if k == 8 {
            if brightness < 100 {
                brightness
            } else {
                100
            }
        } else if k == 9 {
            if contrast < 100 {
                contrast
            } else {
                100
            }
        } else if k < cur.len() {
            cur[k]
        } else {
            0
        };
        out.push(b);
        k += 1;
    }
    assert(out@ =~= Seq::new(
        BACKLIGHT_LEN as nat,
        |k: int| backlight_byte(index, cur@, brightness, contrast, k),
    ));
    out
}

/// Setting a display's brightness and contrast changes nothing else of what it reports.
pub proof fn law_backlight_echoes_the_rest(
    index: u8,
    cur: Seq<u8>,
    brightness: u8,
    contrast: u8,
    k: int,
)
    requires
        cur.len() == BACKLIGHT_LEN,
        0 < k < BACKLIGHT_LEN,
        k != 8,
        k != 9,
    ensures
        backlight_byte(index, cur, brightness, contrast, k) == cur[k],
{
}

/// A display is set to the brightness and the contrast that were asked for, up to 100 each, and each
/// display by a report of its own.
pub proof fn law_the_backlight_is_what_was_asked_for(
    index: u8,
    cur: Seq<u8>,
    brightness: u8,
    contrast: u8,
)
    ensures
        brightness <= 100 ==> backlight_byte(index, cur, brightness, contrast, 8) == brightness,
        brightness > 100 ==> backlight_byte(index, cur, brightness, contrast, 8) == 100,
        contrast <= 100 ==> backlight_byte(index, cur, brightness, contrast, 9) == contrast,
        contrast > 100 ==> backlight_byte(index, cur, brightness, contrast, 9) == 100,
        index == 0 ==> backlight_byte(index, cur, brightness, contrast, 0) == 0xf8,
        index == 1 ==> backlight_byte(index, cur, brightness, contrast, 0) == 0xf9,
{
}

/// The device is found by its ids: a `HID_ID` line with the vendor second and the product third,
/// with zeros before either, is its own, whatever bus it is on.
pub proof fn law_the_device_is_found_by_its_ids(
    bus: Seq<char>,
    vendor: u16,
    product: u16,
)
    requires
        !bus.contains(':'),
    ensures
        line_names(
            "HID_ID="@ + (bus + seq![':'] + (seq!['0'] + id_text(vendor) + seq![':'] + (seq!['0']
                + id_text(product)))),
            vendor,
            product,
        ),
        line_names(
            "HID_ID="@ + (bus + seq![':'] + (id_text(vendor) + seq![':'] + id_text(product))),
            vendor,
            product,
        ),
{
    let (v, p) = (id_text(vendor), id_text(product));
    let (w, q) = (seq!['0'] + v, seq!['0'] + p);
    lemma_id_has_no_colon(vendor);
    lemma_id_has_no_colon(product);
    crate::text::law_leading_characters_are_left_out(v, '0');
    crate::text::law_leading_characters_are_left_out(p, '0');
    lemma_fields(bus, w, q);
    lemma_fields(bus, v, p);
}

proof fn lemma_id_has_no_colon(id: u16)
    ensures
        !id_text(id).contains(':'),
        !(seq!['0'] + id_text(id)).contains(':'),
{
    let t = id_text(id);
    assert forall|i: int| 0 <= i < 4 implies t[i] != ':' by {
        crate::text::law_hexadecimal_digits(id as nat, 4, i);
    }
    crate::text::law_hexadecimal_digits(id as nat, 4, 0);
    let u = seq!['0'] + t;
    assert forall|i: int| 0 <= i < u.len() implies u[i] != ':' by {
        if i > 0 {
            assert(u[i] == t[i - 1]);
        }
    }
}

proof fn lemma_fields(bus: Seq<char>, v: Seq<char>, p: Seq<char>)
    requires
        !bus.contains(':'),
        !v.contains(':'),
        !p.contains(':'),
    ensures
        ({
            let id = bus + seq![':'] + (v + seq![':'] + p);
            &&& after_prefix("HID_ID="@ + id, "HID_ID="@) == Some(id)
            &&& parts(id, ':') == seq![bus, v, p]
        }),
{
    let id = bus + seq![':'] + (v + seq![':'] + p);
    crate::text::law_prefixes_and_pieces(Seq::empty(), "HID_ID="@, id);
    crate::text::law_a_separator_parts_a_text(bus, ':', v + seq![':'] + p);
    crate::text::law_a_separator_parts_a_text(v, ':', p);
    crate::text::law_a_separator_parts_a_text(p, ':', Seq::empty());
    assert(seq![bus] + (seq![v] + seq![p]) =~= seq![bus, v, p]);
}

/// A device is found where a line of its file names it, wherever in the file that line stands, and
/// nowhere else.
pub proof fn law_one_line_is_enough(text: Seq<char>, vendor: u16, product: u16, i: int)
    requires
        0 <= i < lines(text).len(),
    ensures
        line_names(lines(text)[i], vendor, product) ==> uevent_names(text, vendor, product),
        (forall|k: int|
            0 <= k < lines(text).len() ==> !line_names(#[trigger] lines(text)[k], vendor, product))
            ==> !uevent_names(text, vendor, product),
{
}

} // verus!
