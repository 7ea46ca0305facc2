//! RGBA colours, their packed `0xRRGGBBAA` form and their hexadecimal text.

use crate::text::{chars_of, push_char};
use vstd::prelude::*;

verus! {

/// An RGBA colour with eight bits per channel.
#[derive(Debug, Clone, Copy, PartialEq, Eq, Structural)]
pub struct Color {
    pub r: u8,
    pub g: u8,
    pub b: u8,
    pub a: u8,
}

/// The packed colour that every unreadable hexadecimal text stands for.
pub const OPAQUE_BLACK: u32 = 0x0000_00FF;

/// The byte of `raw` that starts `shift` bits above its lowest bit.
pub open spec fn channel_of(raw: u32, shift: u32) -> u8 {
    ((raw >> shift) & 0xFF) as u8
}

/// The colour packed in `raw` as `0xRRGGBBAA`.
pub open spec fn unpacked(raw: u32) -> Color {
    Color {
        r: channel_of(raw, 24),
        g: channel_of(raw, 16),
        b: channel_of(raw, 8),
        a: channel_of(raw, 0),
    }
}

/// The number `0xRRGGBBAA` that packs a colour.
pub open spec fn packed(c: Color) -> u32 {
    (c.r as u32) << 24 | (c.g as u32) << 16 | (c.b as u32) << 8 | (c.a as u32)
}

/// The value of one hexadecimal digit, in either case.
pub open spec fn hex_digit(c: char) -> Option<nat> {
    let n = c as int;
    if 48 <= n <= 57 {
        Some((n - 48) as nat)
    } else if 65 <= n <= 70 {
        Some((n - 55) as nat)
    } else if 97 <= n <= 102 {
        Some((n - 87) as nat)
    } else {
        None
    }
}

/// Whether every character of `s` is a hexadecimal digit.
pub open spec fn is_hex_text(s: Seq<char>) -> bool {
    forall|i: int| 0 <= i < s.len() ==> (#[trigger] hex_digit(s[i])) is Some
}

/// The number that the hexadecimal digits `s` write, most significant first.
pub open spec fn hex_number(s: Seq<char>) -> nat
    decreases s.len(),
{
    if s.len() == 0 {
        0
    } else {
        16 * hex_number(s.drop_last()) + match hex_digit(s.last()) {
            Some(d) => d,
            None => 0,
        }
    }
}

/// Base-16 reading of a whole text as a 32-bit number: an optional `+`, then
/// one or more digits whose value fits.
pub open spec fn parse_radix16(s: Seq<char>) -> Option<u32> {
    let digits = if s.len() > 0 && s[0] == '+' {
        s.skip(1)
    } else {
        s
    };
    if digits.len() > 0 && is_hex_text(digits) && hex_number(digits) <= u32::MAX {
        Some(hex_number(digits) as u32)
    } else {
        None
    }
}

/// A colour text without its leading `#`, if it has one.
pub open spec fn strip_hash(hex: Seq<char>) -> Seq<char> {
    if hex.len() > 0 && hex[0] == '#' {
        hex.skip(1)
    } else {
        hex
    }
}

/// The eight-character form of a colour body: `RRGGBBAA` as it is, `RRGGBB`
/// with an opaque alpha, `RGB` with each digit doubled and an opaque alpha.
pub open spec fn longhand(body: Seq<char>) -> Option<Seq<char>> {
    if body.len() == 8 {
        Some(body)
    } else if body.len() == 3 {
        Some(seq![body[0], body[0], body[1], body[1], body[2], body[2], 'F', 'F'])
    } else if body.len() == 6 {
        Some(body + seq!['F', 'F'])
    } else {
        None
    }
}

/// The packed colour that a hexadecimal text stands for; opaque black where
/// the text has no readable form.
pub open spec fn raw_of_hex(hex: Seq<char>) -> u32 {
    match longhand(strip_hash(hex)) {
        Some(l) => match parse_radix16(l) {
            Some(v) => v,
            None => OPAQUE_BLACK,
        },
        None => OPAQUE_BLACK,
    }
}

/// The upper-case hexadecimal digit for a value below sixteen.
pub open spec fn upper_digit(n: nat) -> char {
    if n < 10 {
        (48 + n) as u8 as char
    } else {
        (55 + n) as u8 as char
    }
}

/// The two upper-case hexadecimal digits of a byte.
pub open spec fn byte_text(b: u8) -> Seq<char> {
    seq![upper_digit((b / 16) as nat), upper_digit((b % 16) as nat)]
}

/// The text `#RRGGBBAA` of a colour, in upper case.
pub open spec fn hex_of(c: Color) -> Seq<char> {
    seq!['#'] + byte_text(c.r) + byte_text(c.g) + byte_text(c.b) + byte_text(c.a)
}

/// The nearest integer to `low + (high - low) * fifths / 5`, halves rounded
/// up, kept within a channel's range.
pub open spec fn lerp_channel(low: u8, high: u8, fifths: u8) -> u8 {
    let tenths = 10 * (low as int) + 2 * ((high as int - low as int) * (fifths as int)) + 5;
    if tenths < 10 {
        0u8
    } else if tenths / 10 > 255 {
        255u8
    } else {
        (tenths / 10) as u8
    }
}

/// The colour between `from` and `to` at `fifths / 5` of the way, channel by
/// channel.
pub open spec fn lerp_of(from: Color, to: Color, fifths: u8) -> Color {
    Color {
        r: lerp_channel(from.r, to.r, fifths),
        g: lerp_channel(from.g, to.g, fifths),
        b: lerp_channel(from.b, to.b, fifths),
        a: lerp_channel(from.a, to.a, fifths),
    }
}

/// A longer run of digits never writes a smaller number than its beginning.
proof fn lemma_hex_number_grows(s: Seq<char>, i: int)
    requires
        0 <= i <= s.len(),
    ensures
        hex_number(s.take(i)) <= hex_number(s),
    decreases s.len() - i,
{
    if i == s.len() {
        assert(s.take(i) =~= s);
    } else {
        lemma_hex_number_grows(s, i + 1);
        assert(s.take(i + 1).drop_last() =~= s.take(i));
    }
}

/// The value of a hexadecimal digit, if `c` is one.
fn digit_of(c: char) -> (d: Option<u32>)
    ensures
        match d {
            Some(v) => hex_digit(c) == Some(v as nat) && v < 16,
            None => hex_digit(c) is None,
        },
{
    let n: u32 = c as u32;
    if 48 <= n && n <= 57 {
        Some(n - 48)
    } else if 65 <= n && n <= 70 {
        Some(n - 55)
    } else if 97 <= n && n <= 102 {
        Some(n - 87)
    } else {
        None
    }
}

/// Reads a whole text as a 32-bit number in base 16.
fn radix16(s: &Vec<char>) -> (r: Option<u32>)
    ensures
        r == parse_radix16(s@),
{
    let start: usize = if s.len() > 0 && s[0] == '+' {
        1
    } else {
        0
    };
    let ghost digits = s@.skip(start as int);
    if s.len() == start {
        return None;
    }
    assert(s@.skip(0) =~= s@);
    assert(parse_radix16(s@) == if is_hex_text(digits) && hex_number(digits) <= u32::MAX {
        Some(hex_number(digits) as u32)
    } else {
        None
    });
    let mut acc: u64 = 0;
    let mut i: usize = start;
    while i < s.len()
        invariant
            start <= i <= s.len(),
            digits == s@.skip(start as int),
            parse_radix16(s@) == if is_hex_text(digits) && hex_number(digits) <= u32::MAX {
                Some(hex_number(digits) as u32)
            } else {
                None
            },
            is_hex_text(digits.take(i - start)),
            acc == hex_number(digits.take(i - start)),
            acc <= u32::MAX,
        decreases s.len() - i,
    {
        let ghost before = digits.take(i - start);
        let ghost after = digits.take(i - start + 1);
        assert(after.drop_last() =~= before);
        assert(after.last() == s@[i as int]);
        match digit_of(s[i]) {
            None => {
                assert(hex_digit(digits[i - start]) is None);
                return None;
            },
            Some(d) => {
                let next: u64 = acc * 16 + d as u64;
                assert(next == hex_number(after));
                if next > 0xFFFF_FFFF {
                    proof {
                        lemma_hex_number_grows(digits, i - start + 1);
                    }
                    return None;
                }
                assert forall|j: int| 0 <= j < after.len() implies (#[trigger] hex_digit(
                    after[j],
                )) is Some by {
                    if j < before.len() {
                        assert(after[j] == before[j]);
                    }
                }
                acc = next;
            },
        }
        i += 1;
    }
    assert(digits.take(i - start) =~= digits);
    Some(acc as u32)
}

/// The two upper-case hexadecimal digits of `b`, appended to `out`.
fn push_byte(out: &mut String, b: u8)
    ensures
        final(out)@ == old(out)@ + byte_text(b),
{
    let hi: u8 = b / 16;
    let lo: u8 = b % 16;
    let hc: char = if hi < 10 {
        (48 + hi) as char
    } else {
        (55 + hi) as char
    };
    let lc: char = if lo < 10 {
        (48 + lo) as char
    } else {
        (55 + lo) as char
    };
    push_char(out, hc);
    push_char(out, lc);
    assert(out@ =~= old(out)@ + byte_text(b));
}

/// One channel of an interpolated colour.
fn lerp_one(low: u8, high: u8, fifths: u8) -> (c: u8)
    ensures
        c == lerp_channel(low, high, fifths),
{
    let span: i32 = high as i32 - low as i32;
    assert(-65025 <= span * (fifths as i32) <= 65025) by (nonlinear_arith)
        requires
            -255 <= span <= 255,
            0 <= fifths <= 255,
    ;
    let scaled: i32 = span * (fifths as i32);
    let tenths: i32 = 10 * (low as i32) + 2 * scaled + 5;
    if tenths < 10 {
        0
    } else if tenths / 10 > 255 {
        255
    } else {
        (tenths / 10) as u8
    }
}

impl Color {
    pub fn from_rgba(r: u8, g: u8, b: u8, a: u8) -> (c: Color)
        ensures
            c == (Color { r, g, b, a }),
    {
        Color { r, g, b, a }
    }

    /// The colour that a hexadecimal text stands for.
    pub fn from_hex(hex: &str) -> (c: Color)
        ensures
            c == unpacked(raw_of_hex(hex@)),
    {
        Self::hex_to_color(hex)
    }

    /// The text `#RRGGBBAA` of this colour.
    pub fn to_hex(&self) -> (s: String)
        ensures
            s@ == hex_of(*self),
    {
        Self::color_to_hex(self)
    }

    /// The colour that a hexadecimal text stands for.
    pub fn hex_to_color(hex: &str) -> (c: Color)
        ensures
            c == unpacked(raw_of_hex(hex@)),
    {
        let raw_color: u32 = Self::hex_to_raw(hex);
        Self::raw_to_color(raw_color)
    }

    /// Reads `#RGB`, `#RRGGBB` or `#RRGGBBAA`, with or without the `#`, into
    /// the packed form `0xRRGGBBAA`. Any other text gives opaque black.
    pub fn hex_to_raw(hex: &str) -> (raw: u32)
        ensures
            raw == raw_of_hex(hex@),
    {
        let all: Vec<char> = chars_of(hex);
        let start: usize = if all.len() > 0 && all[0] == '#' {
            1
        } else {
            0
        };
        let ghost body = strip_hash(hex@);
        assert(body == all@.skip(start as int));
        let n: usize = all.len() - start;
        let mut full: Vec<char> = Vec::with_capacity(8);
        if n == 8 || n == 6 {
            let mut i: usize = start;
            while i < all.len()
                invariant
                    start <= i <= all.len(),
                    body == all@.skip(start as int),
                    full@ == body.take(i - start),
                decreases all.len() - i,
            {
                full.push(all[i]);
                i += 1;
                assert(body.take(i - start) =~= body.take(i - start - 1).push(all@[i - 1]));
            }
            assert(body.take(n as int) =~= body);
            if n == 6 {
                full.push('F');
                full.push('F');
                assert(full@ =~= body + seq!['F', 'F']);
            }
        } else if n == 3 {
            full.push(all[start]);
            full.push(all[start]);
            full.push(all[start + 1]);
            full.push(all[start + 1]);
            full.push(all[start + 2]);
            full.push(all[start + 2]);
            full.push('F');
            full.push('F');
            assert(full@ =~= longhand(body)->0);
        } else {
            return OPAQUE_BLACK;
        }
        assert(longhand(body) == Some(full@));
        match radix16(&full) {
            Some(val) => val,
            None => OPAQUE_BLACK,
        }
    }

    /// Unpacks a colour stored as `0xRRGGBBAA`.
    pub fn raw_to_color(raw: u32) -> (c: Color)
        ensures
            c == unpacked(raw),
    {
        let r: u8 = ((raw >> 24) & 0xFF) as u8;
        let g: u8 = ((raw >> 16) & 0xFF) as u8;
        let b: u8 = ((raw >> 8) & 0xFF) as u8;
        let a: u8 = ((raw >> 0) & 0xFF) as u8;
        Self::from_rgba(r, g, b, a)
    }

    /// The text `#RRGGBBAA` of a colour, in upper case.
    pub fn color_to_hex(color: &Color) -> (s: String)
        ensures
            s@ == hex_of(*color),
    {
        let mut s = String::new();
        push_char(&mut s, '#');
        push_byte(&mut s, color.r);
        push_byte(&mut s, color.g);
        push_byte(&mut s, color.b);
        push_byte(&mut s, color.a);
        assert(s@ =~= hex_of(*color));
        s
    }

    /// Packs a colour as `0xRRGGBBAA`.
    pub fn color_to_raw(color: &Color) -> (raw: u32)
        ensures
            raw == packed(*color),
    {
        ((color.r as u32) << 24) | ((color.g as u32) << 16) | ((color.b as u32) << 8) | (
        color.a as u32)
    }

    /// The colour at `fifths / 5` of the way from `color_a` to `color_b`,
    /// each channel rounded to the nearest integer and kept within `0..=255`.
    pub fn lerp_color(color_a: &Color, color_b: &Color, fifths: u8) -> (c: Color)
        ensures
            c == lerp_of(*color_a, *color_b, fifths),
    {
        let r = lerp_one(color_a.r, color_b.r, fifths);
        let g = lerp_one(color_a.g, color_b.g, fifths);
        let b = lerp_one(color_a.b, color_b.b, fifths);
        let a = lerp_one(color_a.a, color_b.a, fifths);
        Self::from_rgba(r, g, b, a)
    }

    /// Interpolates between two colours given as hexadecimal text.
    pub fn lerp_hex(hex_a: &str, hex_b: &str, fifths: u8) -> (c: Color)
        ensures
            c == lerp_of(unpacked(raw_of_hex(hex_a@)), unpacked(raw_of_hex(hex_b@)), fifths),
    {
        let color_a: Color = Self::hex_to_color(hex_a);
        let color_b: Color = Self::hex_to_color(hex_b);
        Self::lerp_color(&color_a, &color_b, fifths)
    }
}

/// Packing a colour and unpacking the number gives the colour back.
pub proof fn lemma_unpack_packed(c: Color)
    ensures
        unpacked(packed(c)) == c,
{
    let (r, g, b, a) = (c.r, c.g, c.b, c.a);
    assert((((r as u32) << 24 | (g as u32) << 16 | (b as u32) << 8 | (a as u32)) >> 24u32) & 0xFF
        == r as u32) by (bit_vector);
    assert((((r as u32) << 24 | (g as u32) << 16 | (b as u32) << 8 | (a as u32)) >> 16u32) & 0xFF
        == g as u32) by (bit_vector);
    assert((((r as u32) << 24 | (g as u32) << 16 | (b as u32) << 8 | (a as u32)) >> 8u32) & 0xFF
        == b as u32) by (bit_vector);
    assert((((r as u32) << 24 | (g as u32) << 16 | (b as u32) << 8 | (a as u32)) >> 0u32) & 0xFF
        == a as u32) by (bit_vector);
}

/// Unpacking a number and packing the colour gives the number back.
pub proof fn lemma_pack_unpacked(raw: u32)
    ensures
        packed(unpacked(raw)) == raw,
{
    assert(((((raw >> 24u32) & 0xFF) as u8) as u32) << 24 | ((((raw >> 16u32) & 0xFF) as u8) as u32)
        << 16 | ((((raw >> 8u32) & 0xFF) as u8) as u32) << 8 | ((((raw >> 0u32) & 0xFF) as u8) as u32)
        == raw) by (bit_vector);
}

} // verus!
