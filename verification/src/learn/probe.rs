//! Lighting slots by hand, and reading what the device says of itself.
//!
//! A monochrome LED reads its byte as brightness across 0..=127, while a colour LED reads it as
//! `(palette << 2) | level` and treats level 0 as off. So palette 31 at level 0 lights only
//! monochrome LEDs and palette 1 at level 1 only colour ones, which is enough to tell the two
//! kinds apart by eye.
use crate::config::word_at;
use crate::display::{H, W};
use crate::hid::le16;
use crate::learn::walk::number_or;
use crate::learn::parse_usize;
use crate::leds::{Ramp, LED_COUNT};
use crate::text::{
    bytes_to, chars_of, dec, flush_right, has_prefix, hex, law_decimal_reads_back, parse_uint,
    push_bytes, push_dec, push_dec_right, push_hex, read_uint, same, starts_with, trim, trimmed,
    unsigned, views,
};
use vstd::prelude::*;

verus! {

/// The value of a hexadecimal digit of either case.
pub open spec fn hex_value(c: char) -> Option<nat> {
    if '0' <= c <= '9' {
        Some((c as u32 - 48) as nat)
    } else if 'a' <= c <= 'f' {
        Some((c as u32 - 87) as nat)
    } else if 'A' <= c <= 'F' {
        Some((c as u32 - 55) as nat)
    } else {
        None
    }
}

/// The number that a run of hexadecimal digits stands for, where it is one.
pub open spec fn hex_number(s: Seq<char>) -> Option<nat>
    decreases s.len(),
{
    if s.len() == 0 {
        Some(0)
    } else {
        match (hex_number(s.drop_last()), hex_value(s.last())) {
            (Some(n), Some(d)) => Some(n * 16 + d),
            _ => None,
        }
    }
}

/// The byte that a word is in hexadecimal: an optional plus sign and at least one digit.
pub open spec fn read_hex_byte(s: Seq<char>) -> Option<u8> {
    let d = unsigned(s);
    match hex_number(d) {
        Some(n) if d.len() > 0 && n <= 255 => Some(n as u8),
        _ => None,
    }
}

/// The byte that a word is, in decimal or, behind `0x`, in hexadecimal.
pub open spec fn read_byte(s: Seq<char>) -> Option<u8> {
    let t = trimmed(s);
    if has_prefix(t, "0x"@) || has_prefix(t, "0X"@) {
        read_hex_byte(t.skip(2))
    } else {
        match read_uint(t, 255) {
            Some(n) => Some(n as u8),
            None => None,
        }
    }
}

fn digit_of(c: char) -> (r: Option<u8>)
    ensures
        match r {
            Some(d) => hex_value(c) == Some(d as nat) && d < 16,
            None => hex_value(c) is None,
        },
{
    if '0' <= c && c <= '9' {
        Some((c as u32 - 48) as u8)
    } else if 'a' <= c && c <= 'f' {
        Some((c as u32 - 87) as u8)
    } else if 'A' <= c && c <= 'F' {
        Some((c as u32 - 55) as u8)
    } else {
        None
    }
}

/// Once a number is above a byte, more digits keep it there or make it none.
proof fn lemma_hex_grows(s: Seq<char>, n: int)
    requires
        0 <= n <= s.len(),
    ensures
        hex_number(s.take(n)) is None ==> hex_number(s) is None,
        hex_number(s) is Some ==> hex_number(s.take(n)) is Some && hex_number(s)->0 >= hex_number(
            s.take(n),
        )->0,
    decreases s.len(),
{
    if n == s.len() {
        assert(s.take(n) =~= s);
    } else {
        assert(s.drop_last().take(n) =~= s.take(n));
        lemma_hex_grows(s.drop_last(), n);
    }
}

fn hex_byte(cs: &[char]) -> (r: Option<u8>)
    ensures
        r == read_hex_byte(cs@),
{
    let start: usize = if cs.len() > 0 && cs[0] == '+' {
        1
    } else {
        0
    };
    let ghost d = cs@.skip(start as int);
    assert(start == 0 ==> d =~= cs@);
    assert(d == unsigned(cs@));
    if start == cs.len() {
        return None;
    }
    let mut v: u32 = 0;
    let mut i: usize = start;
    assert(d.take(0) =~= Seq::<char>::empty());
    while i < cs.len()
        invariant
            start <= i <= cs@.len(),
            start < cs@.len(),
            d == cs@.skip(start as int),
            d == unsigned(cs@),
            v <= 255,
            hex_number(d.take(i - start)) == Some(v as nat),
        decreases cs@.len() - i,
    {
        assert(cs@[i as int] == d[i - start]);
        let ghost next = d.take(i - start + 1);
        proof {
            assert(next.drop_last() =~= d.take(i - start));
            lemma_hex_grows(d, i - start + 1);
        }
        match digit_of(cs[i]) {
            None => {
                assert(hex_number(next) is None);
                return None;
            },
            Some(x) => {
                v = v * 16 + x as u32;
                assert(hex_number(next) == Some(v as nat));
            },
        }
        if v > 255 {
            return None;
        }
        i += 1;
    }
    assert(d.take(d.len() as int) =~= d);
    Some(v as u8)
}

/// The byte that a word is, in decimal or, behind `0x`, in hexadecimal.
pub fn parse_u8(s: &str) -> (r: Option<u8>)
    ensures
        r == read_byte(s@),
{
    let t = trim(s);
    let cs = chars_of(t.as_str());
    if starts_with(t.as_str(), "0x") || starts_with(t.as_str(), "0X") {
        proof {
            reveal_strlit("0x");
            reveal_strlit("0X");
        }
        let mut rest: Vec<char> = Vec::new();
        let mut i: usize = 2;
        while i < cs.len()
            invariant
                2 <= i <= cs@.len(),
                rest@ =~= cs@.subrange(2, i as int),
            decreases cs@.len() - i,
        {
            rest.push(cs[i]);
            i += 1;
        }
        assert(rest@ =~= t@.skip(2));
        hex_byte(&rest)
    } else {
        match parse_uint(&cs, 255) {
            Some(n) => Some(n as u8),
            None => None,
        }
    }
}

/// What to light.
#[derive(Debug)]
pub enum Probe {
    /// These slots, with this byte.
    Slots(usize, usize, u8),
    /// Each slot of the touch strip, with a byte of its own.
    Strip,
    /// This argument is not a number.
    Number(String),
    /// This range is empty.
    Empty(usize, usize),
}

/// The byte that lights only the colour LEDs.
pub const RGB_ONLY: u8 = 0x05;

/// The byte that lights only the monochrome LEDs.
pub const MONO_ONLY: u8 = 0x7c;

/// The byte that slots are lit with where none is given.
pub const PROBE_BYTE: u8 = 0x47;

/// The byte that is given, or the default where none is.
pub open spec fn byte_or(w: Option<Seq<char>>) -> Option<u8> {
    match w {
        None => Some(PROBE_BYTE),
        Some(t) => read_byte(t),
    }
}

/// `r` is what the arguments ask to light.
pub open spec fn probes(args: Seq<Seq<char>>, r: Probe) -> bool {
    if args.len() > 0 && args[0] == "rgb"@ {
        r == Probe::Slots(0, LED_COUNT, RGB_ONLY)
    } else if args.len() > 0 && args[0] == "mono"@ {
        r == Probe::Slots(0, LED_COUNT, MONO_ONLY)
    } else if args.len() > 0 && args[0] == "strip"@ {
        r is Strip
    } else {
        let lo = number_or(word_at(args, 0), 0);
        let hi = number_or(word_at(args, 1), LED_COUNT as nat);
        let v = byte_or(word_at(args, 2));
        if lo is None {
            r matches Probe::Number(t) && t@ == args[0]
        } else if hi is None {
            r matches Probe::Number(t) && t@ == args[1]
        } else if v is None {
            r matches Probe::Number(t) && t@ == args[2]
        } else {
            let end = if hi->0 < LED_COUNT {
                hi->0
            } else {
                LED_COUNT as nat
            };
            if lo->0 >= end {
                r matches Probe::Empty(a, b) && a == lo->0 && b == end
            } else {
                r matches Probe::Slots(a, b, x) && a == lo->0 && b == end && x == v->0
            }
        }
    }
}

/// What the arguments ask to light.
pub fn probe(args: &Vec<String>) -> (r: Probe)
    ensures
        probes(views(args@), r),
{
    let ghost all = views(args@);
    assert(all.len() == args@.len());
    if args.len() > 0 {
        assert(all[0] == args@[0]@);
        let a = args[0].as_str();
        if same(a, "rgb") {
            return Probe::Slots(0, LED_COUNT, RGB_ONLY);
        }
        if same(a, "mono") {
            return Probe::Slots(0, LED_COUNT, MONO_ONLY);
        }
        if same(a, "strip") {
            return Probe::Strip;
        }
    }
    let lo: usize = if args.len() > 0 {
        match parse_usize(args[0].as_str()) {
            Some(n) => n,
            None => {
                return Probe::Number(args[0].clone());
            },
        }
    } else {
        0
    };
    let hi: usize = if args.len() > 1 {
        assert(all[1] == args@[1]@);
        match parse_usize(args[1].as_str()) {
            Some(n) => n,
            None => {
                return Probe::Number(args[1].clone());
            },
        }
    } else {
        LED_COUNT
    };
    let v: u8 = if args.len() > 2 {
        assert(all[2] == args@[2]@);
        match parse_u8(args[2].as_str()) {
            Some(n) => n,
            None => {
                return Probe::Number(args[2].clone());
            },
        }
    } else {
        PROBE_BYTE
    };
    let end: usize = if hi < LED_COUNT {
        hi
    } else {
        LED_COUNT
    };
    if lo >= end {
        return Probe::Empty(lo, end);
    }
    Probe::Slots(lo, end, v)
}

/// The byte of segment `i` when every segment of the strip is shown another colour: the palette
/// indices from 1 on at full level, since index 0 is always black.
pub open spec fn strip_byte(i: nat) -> u8 {
    let v = ((i + 1) * 4) % 256 + 3;
    if v < 0x7f {
        v as u8
    } else {
        0x7f
    }
}

/// The byte of segment `i` when every segment of the strip is shown another colour.
pub fn strip_value(i: usize) -> (r: u8)
    requires
        i < 255,
    ensures
        r == strip_byte(i as nat),
{
    let v: u32 = ((i as u32 + 1) * 4) % 256 + 3;
    if v < 0x7f {
        v as u8
    } else {
        0x7f
    }
}

/// The line of a segment.
pub fn strip_line(i: usize) -> (r: String)
    requires
        i < 255,
    ensures
        r@ == "  "@ + flush_right(dec((i + 1) as nat), 8) + "  0x"@ + hex(
            strip_byte(i as nat) as nat,
            2,
        ),
{
    let mut s = "  ".to_owned();
    push_dec_right(&mut s, i as u64 + 1, 8);
    s.append("  0x");
    push_hex(&mut s, strip_value(i) as u64, 2);
    s
}

// The test picture.

/// The colour of a place in the test picture: red grows to the right, green downwards, and blue
/// fades with both. A wrong byte order or stride shows up immediately in it.
pub open spec fn gradient_of(x: int, y: int) -> (u8, u8, u8) {
    let r = (x * 255) / (W as int);
    let g = (y * 255) / (H as int);
    (r as u8, g as u8, (255 - (r / 2 + g / 2)) as u8)
}

/// The colour of a place in the test picture.
pub fn gradient(x: usize, y: usize) -> (c: (u8, u8, u8))
    requires
        x < W,
        y < H,
    ensures
        c == gradient_of(x as int, y as int),
{
    let r: u8 = ((x * 255) / W) as u8;
    let g: u8 = ((y * 255) / H) as u8;
    (r, g, 255 - (r / 2 + g / 2))
}

// What the device says of itself.

/// Bytes in hexadecimal, with blanks between them.
pub fn hexdump(b: &[u8]) -> (r: String)
    ensures
        r@ == bytes_to(b@, " "@, b@.len() as int),
{
    let mut s = String::new();
    push_bytes(&mut s, b, " ");
    assert(s@ =~= bytes_to(b@, " "@, b@.len() as int));
    s
}

/// What a display's feature report says: its size, its depth, and how it is lit.
pub open spec fn display_text(r: Seq<u8>) -> Seq<char> {
    "     "@ + dec(le16(r[1], r[2]) as nat) + "x"@ + dec(le16(r[3], r[4]) as nat) + ", "@ + dec(
        r[5] as nat,
    ) + " bpp, brightness "@ + dec(r[8] as nat) + ", contrast "@ + dec(r[9] as nat)
}

/// What a display's feature report says.
pub fn display_line(r: &[u8]) -> (s: String)
    requires
        r@.len() >= 10,
    ensures
        s@ == display_text(r@),
{
    let mut s = "     ".to_owned();
    push_dec(&mut s, r[1] as u64 + 256 * r[2] as u64);
    s.append("x");
    push_dec(&mut s, r[3] as u64 + 256 * r[4] as u64);
    s.append(", ");
    push_dec(&mut s, r[5] as u64);
    s.append(" bpp, brightness ");
    push_dec(&mut s, r[8] as u64);
    s.append(", contrast ");
    push_dec(&mut s, r[9] as u64);
    assert(s@ =~= display_text(r@));
    s
}

/// The 16-bit numbers that follow a report's id, the first `n` of them, with commas between them.
pub open spec fn words_text(r: Seq<u8>, n: int) -> Seq<char>
    decreases n,
{
    if n <= 0 {
        Seq::empty()
    } else if n == 1 {
        dec(le16(r[1], r[2]) as nat)
    } else {
        words_text(r, n - 1) + ", "@ + dec(le16(r[2 * n - 1], r[2 * n]) as nat)
    }
}

/// What a pad calibration report says: its 16-bit numbers.
pub fn calibration_line(r: &[u8]) -> (s: String)
    requires
        r@.len() >= 1,
    ensures
        s@ == "     ["@ + words_text(r@, (r@.len() - 1) / 2) + "]"@,
{
    let mut s = "     [".to_owned();
    let ghost start = s@;
    let n: usize = (r.len() - 1) / 2;
    let mut i: usize = 0;
    while i < n
        invariant
            i <= n,
            n == (r@.len() - 1) / 2,
            r@.len() <= usize::MAX,
            s@ =~= start + words_text(r@, i as int),
        decreases n - i,
    {
        if i > 0 {
            s.append(", ");
        }
        push_dec(&mut s, r[2 * i + 1] as u64 + 256 * r[2 * i + 2] as u64);
        i += 1;
    }
    s.append("]");
    s
}

/// The characters of the bytes from `i` on, up to the first zero.
pub open spec fn text_from(r: Seq<u8>, i: int) -> Seq<char>
    decreases r.len() - i,
{
    if i < 0 || i >= r.len() || r[i] == 0 {
        Seq::empty()
    } else {
        seq![r[i] as char] + text_from(r, i + 1)
    }
}

/// What a serial number report says: its text up to the first zero.
pub fn serial_line(r: &[u8]) -> (s: String)
    requires
        r@.len() >= 1,
    ensures
        s@ == "     \""@ + text_from(r@, 1) + "\""@,
{
    let mut s = "     \"".to_owned();
    let ghost start = s@;
    let mut i: usize = 1;
    while i < r.len() && r[i] != 0
        invariant
            1 <= i <= r@.len(),
            s@ + text_from(r@, i as int) =~= start + text_from(r@, 1),
        decreases r@.len() - i,
    {
        s.push(r[i] as char);
        i += 1;
    }
    assert(text_from(r@, i as int) =~= Seq::empty());
    s.append("\"");
    assert(s@ =~= "     \""@ + text_from(r@, 1) + "\""@);
    s
}

/// One colour of a ramp.
pub open spec fn cell_text(t: (u8, u8, u8)) -> Seq<char> {
    "("@ + flush_right(dec(t.0 as nat), 3) + ","@ + flush_right(dec(t.1 as nat), 3) + ","@
        + flush_right(dec(t.2 as nat), 3) + ")"@
}

/// The line of a palette entry.
pub open spec fn ramp_text(i: nat, r: Ramp) -> Seq<char> {
    "  "@ + flush_right(dec(i), 2) + ": "@ + cell_text(r.0@[0]) + " "@ + cell_text(r.0@[1]) + " "@
        + cell_text(r.0@[2]) + " "@ + cell_text(r.0@[3])
}

fn push_cell(s: &mut String, t: (u8, u8, u8))
    ensures
        final(s)@ == old(s)@ + cell_text(t),
{
    s.append("(");
    push_dec_right(s, t.0 as u64, 3);
    s.append(",");
    push_dec_right(s, t.1 as u64, 3);
    s.append(",");
    push_dec_right(s, t.2 as u64, 3);
    s.append(")");
    assert(s@ =~= old(s)@ + cell_text(t));
}

/// The line of a palette entry.
pub fn ramp_line(i: usize, r: &Ramp) -> (s: String)
    ensures
        s@ == ramp_text(i as nat, *r),
{
    let mut s = "  ".to_owned();
    push_dec_right(&mut s, i as u64, 2);
    s.append(": ");
    push_cell(&mut s, r.0[0]);
    s.append(" ");
    push_cell(&mut s, r.0[1]);
    s.append(" ");
    push_cell(&mut s, r.0[2]);
    s.append(" ");
    push_cell(&mut s, r.0[3]);
    assert(s@ =~= ramp_text(i as nat, *r));
    s
}

// What a byte is, and what it lights.

/// A byte is read as it is written, in decimal or in hexadecimal, whatever stands around it; a number
/// that is no byte is not read.
pub proof fn law_a_byte_reads_back(n: nat)
    ensures
        n <= 255 ==> read_byte(dec(n)) == Some(n as u8),
        n > 255 ==> read_byte(dec(n)) is None,
        n <= 255 ==> read_byte("0x"@ + hex(n, 2)) == Some(n as u8),
{
    law_decimal_reads_back(n, 255);
    reveal_strlit("0x");
    reveal_strlit("0X");
    let d = dec(n);
    lemma_digits_are_not_white(d);
    crate::text::law_trimming_takes_the_ends_off(Seq::empty(), d, Seq::empty());
    assert(Seq::<char>::empty() + d + Seq::<char>::empty() =~= d);
    assert(!has_prefix(d, "0x"@) && !has_prefix(d, "0X"@)) by {
        if d.len() >= 2 {
            assert(crate::text::is_digit(d[1]));
            assert(d.take(2)[1] == d[1]);
        }
    }
    if n <= 255 {
        let h = hex(n, 2);
        let t = "0x"@ + h;
        crate::text::law_hexadecimal_digits(n, 2, 0);
        crate::text::law_hexadecimal_digits(n, 2, 1);
        reveal_with_fuel(hex, 3);
        assert(h[0] == crate::text::hex_digit((n / 16) % 16));
        assert(h[1] == crate::text::hex_digit(n % 16));
        assert(!crate::text::is_white(t[0]));
        assert(!crate::text::is_white(t.last()));
        crate::text::law_trimming_takes_the_ends_off(Seq::empty(), t, Seq::empty());
        assert(Seq::<char>::empty() + t + Seq::<char>::empty() =~= t);
        assert(t.take(2) =~= "0x"@);
        assert(t.skip(2) =~= h);
        assert(h[0] != '+');
        lemma_two_hex_digits(h);
    }
}

proof fn lemma_digits_are_not_white(d: Seq<char>)
    requires
        crate::text::all_digits(d),
        d.len() > 0,
    ensures
        !crate::text::is_white(d[0]),
        !crate::text::is_white(d.last()),
{
    assert(crate::text::is_digit(d[0]));
    assert(crate::text::is_digit(d[d.len() - 1]));
}

proof fn lemma_two_hex_digits(h: Seq<char>)
    requires
        h.len() == 2,
        hex_value(h[0]) is Some,
        hex_value(h[1]) is Some,
    ensures
        hex_number(h) == Some(16 * hex_value(h[0])->0 + hex_value(h[1])->0),
{
    let a = h.drop_last();
    assert(a.drop_last() =~= Seq::empty());
    assert(hex_number(Seq::<char>::empty()) == Some(0nat));
    assert(a.last() == h[0]);
    assert(hex_number(a) == Some(hex_value(h[0])->0));
}

/// A hexadecimal digit counts for the same in either case.
pub proof fn law_hexadecimal_digits_of_either_case(i: int)
    requires
        0 <= i < 6,
    ensures
        hex_value((97 + i) as u8 as char) == Some((10 + i) as nat),
        hex_value((65 + i) as u8 as char) == Some((10 + i) as nat),
{
}

/// Arguments that are numbers light the slots from the first up to the second, as far as there are
/// slots, with the byte that is the third; what is left out is the whole surface and the usual byte.
pub proof fn law_a_range_is_lit(lo: nat, hi: nat, v: nat, r: Probe)
    requires
        lo < hi,
        lo < LED_COUNT,
        hi <= usize::MAX,
        v <= 255,
        probes(seq![dec(lo), dec(hi), dec(v)], r),
    ensures
        r matches Probe::Slots(a, b, x) && a == lo && x == v && (hi <= LED_COUNT ==> b == hi) && (hi
            > LED_COUNT ==> b == LED_COUNT),
{
    law_decimal_reads_back(lo, usize::MAX as nat);
    law_decimal_reads_back(hi, usize::MAX as nat);
    law_a_byte_reads_back(v);
    reveal_strlit("rgb");
    reveal_strlit("mono");
    reveal_strlit("strip");
    assert(crate::text::is_digit(dec(lo)[0]));
    assert("rgb"@[0] == 'r' && "mono"@[0] == 'm' && "strip"@[0] == 's');
}

/// Segments are told apart by their colours: up to the thirtieth each has the palette entry of its
/// own number, at full level.
pub proof fn law_segments_are_told_apart(i: nat)
    requires
        i < 30,
    ensures
        strip_byte(i) / 4 == i + 1,
        strip_byte(i) % 4 == 3,
{
}

/// The test picture's red is to 255 what the column is to the width, its green what the row is to
/// the height, and there is less blue the more there is of both.
pub proof fn law_the_gradient_follows_the_place(x: int, y: int)
    requires
        0 <= x < 480,
        0 <= y < 272,
    ensures
        480 * gradient_of(x, y).0 <= 255 * x && 255 * x < 480 * (gradient_of(x, y).0 + 1),
        272 * gradient_of(x, y).1 <= 255 * y && 255 * y < 272 * (gradient_of(x, y).1 + 1),
        -1 <= 2 * gradient_of(x, y).2 + gradient_of(x, y).0 + gradient_of(x, y).1 - 511 <= 1,
{
}

/// A text in a report goes on to the first zero.
pub proof fn law_a_text_goes_on_to_the_first_zero(a: Seq<u8>, b: Seq<u8>, i: int)
    requires
        0 <= i <= a.len(),
        forall|k: int| 0 <= k < a.len() ==> #[trigger] a[k] != 0,
    ensures
        text_from(a + seq![0u8] + b, i).len() == a.len() - i,
        forall|k: int|
            0 <= k < a.len() - i ==> #[trigger] text_from(a + seq![0u8] + b, i)[k] == a[i + k] as char,
    decreases a.len() - i,
{
    let r = a + seq![0u8] + b;
    if i < a.len() {
        law_a_text_goes_on_to_the_first_zero(a, b, i + 1);
        assert(r[i] == a[i]);
        let rest = text_from(r, i + 1);
        assert forall|k: int| 0 <= k < a.len() - i implies #[trigger] text_from(r, i)[k] == a[i
            + k] as char by {
            if k > 0 {
                assert(text_from(r, i)[k] == rest[k - 1]);
                assert(rest[k - 1] == a[i + 1 + (k - 1)] as char);
            }
        }
    } else {
        assert(r[i] == 0);
    }
}

} // verus!
