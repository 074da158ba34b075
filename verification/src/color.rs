//! Colors: the RGBA pixel value, its `#RRGGBBAA` text (through the
//! `hex_color` crate) and the shortened form the format stores.
use vstd::prelude::*;
use vstd::utf8::{encode_scalar, encode_utf8, is_scalar};
use crate::text::{chars_of, string_of};

verus! {

/// One RGBA pixel.
#[derive(Clone, Copy, Debug, PartialEq, Eq, Structural)]
pub struct Rgba {
    pub r: u8,
    pub g: u8,
    pub b: u8,
    pub a: u8,
}

/// The upper-case hexadecimal digit of `d` (`0 <= d < 16`).
pub open spec fn hex_digit_upper(d: int) -> char {
    if d < 10 {
        (d + '0' as int) as char
    } else {
        (d - 10 + 'A' as int) as char
    }
}

/// A byte as two upper-case hexadecimal digits.
pub open spec fn hex2(b: u8) -> Seq<char> {
    seq![hex_digit_upper(b as int / 16), hex_digit_upper(b as int % 16)]
}

/// `#RRGGBBAA`, upper case.
pub open spec fn display_rgba_spec(p: Rgba) -> Seq<char> {
    seq!['#'] + hex2(p.r) + hex2(p.g) + hex2(p.b) + hex2(p.a)
}

/// The value of a hexadecimal digit, either case.
pub open spec fn hex_value(c: char) -> Option<u8> {
    if '0' <= c && c <= '9' {
        Some((c as int - '0' as int) as u8)
    } else if 'a' <= c && c <= 'f' {
        Some((c as int - 'a' as int + 10) as u8)
    } else if 'A' <= c && c <= 'F' {
        Some((c as int - 'A' as int + 10) as u8)
    } else {
        None
    }
}

/// A shorthand channel: one digit `d` stands for `dd`.
pub open spec fn hex_single(c: char) -> Option<u8> {
    match hex_value(c) {
        Some(v) => Some((v * 17) as u8),
        None => None,
    }
}

/// A full channel: two characters read as `u8::from_str_radix(_, 16)` reads
/// them (a leading `+` is a sign).
pub open spec fn hex_pair(c1: char, c2: char) -> Option<u8> {
    if c1 == '+' {
        hex_value(c2)
    } else {
        match (hex_value(c1), hex_value(c2)) {
            (Some(h), Some(l)) => Some((h * 16 + l) as u8),
            _ => None,
        }
    }
}

/// What `hex_color::HexColor::parse` accepts and gives: `#RGB`, `#RGBA`,
/// `#RRGGBB` or `#RRGGBBAA`, alpha `255` where it is not written.
pub open spec fn hex_color_parse_spec(s: Seq<char>) -> Option<Rgba> {
    if s.len() == 0 || s[0] != '#' {
        None
    } else if s.len() == 4 || s.len() == 5 {
        match (hex_single(s[1]), hex_single(s[2]), hex_single(s[3])) {
            (Some(r), Some(g), Some(b)) => if s.len() == 5 {
                match hex_single(s[4]) {
                    Some(a) => Some(Rgba { r, g, b, a }),
                    None => None,
                }
            } else {
                Some(Rgba { r, g, b, a: 255 })
            },
            _ => None,
        }
    } else if s.len() == 7 || s.len() == 9 {
        match (hex_pair(s[1], s[2]), hex_pair(s[3], s[4]), hex_pair(s[5], s[6])) {
            (Some(r), Some(g), Some(b)) => if s.len() == 9 {
                match hex_pair(s[7], s[8]) {
                    Some(a) => Some(Rgba { r, g, b, a }),
                    None => None,
                }
            } else {
                Some(Rgba { r, g, b, a: 255 })
            },
            _ => None,
        }
    } else {
        None
    }
}

/// `hex_color::HexColor::rgba(..).display_rgba()` rendered with `to_string`:
/// `#` and the four channels as two upper-case hexadecimal digits each.
#[verifier::external_body]
pub(crate) fn display_rgba(p: Rgba) -> (res: String)
    ensures
        res@ == display_rgba_spec(p),
{
    hex_color::HexColor::rgba(p.r, p.g, p.b, p.a).display_rgba().to_string()
}

/// `hex_color::HexColor::parse`, its channels taken out with `split_rgba`;
/// `None` where it returns an error. The claimed grammar is the one of
/// `parse_internals`, `parse_shorthand` and `parse_full` in the crate.
#[verifier::external_body]
pub(crate) fn parse_hex_color(s: &str) -> (res: Option<Rgba>)
    ensures
        res == hex_color_parse_spec(s@),
{
    match hex_color::HexColor::parse(s) {
        Ok(c) => {
            let (r, g, b, a) = c.split_rgba();
            Some(Rgba { r, g, b, a })
        },
        Err(_) => None,
    }
}


pub open spec fn is_ascii_char(c: char) -> bool {
    (c as u32) < 0x80
}

/// The byte test of `optimize_hex_color`, read on characters: the first six
/// characters are ASCII and pairwise equal (0 with 1, 2 with 3, 4 with 5).
pub open spec fn hex_pairs_doubled(s: Seq<char>) -> bool {
    &&& s.len() >= 6
    &&& forall|i: int| 0 <= i < 6 ==> is_ascii_char(#[trigger] s[i])
    &&& s[0] == s[1]
    &&& s[2] == s[3]
    &&& s[4] == s[5]
}

/// What `optimize_hex_color` makes of its input: `#` and characters 1, 3
/// and 5 where the test holds, then a trailing `FF` dropped.
pub open spec fn optimize_hex_spec(s: Seq<char>) -> Seq<char> {
    let t = if hex_pairs_doubled(s) {
        seq!['#', s[1], s[3], s[5]]
    } else {
        s
    };
    if t.len() >= 2 && t[t.len() - 2] == 'F' && t[t.len() - 1] == 'F' {
        t.take(t.len() - 2)
    } else {
        t
    }
}

proof fn lemma_scalar_bytes(c: u32)
    requires
        is_scalar(c),
    ensures
        c < 0x80 ==> encode_scalar(c) == seq![c as u8],
        c >= 0x80 ==> {
            &&& encode_scalar(c).len() >= 2
            &&& encode_scalar(c)[0] >= 0xc0
            &&& 0x80 <= encode_scalar(c)[1] <= 0xbf
            &&& 0x80 <= encode_scalar(c).last() <= 0xbf
        },
{
    let e = encode_scalar(c);
    if c < 0x80 {
        assert((c & 0x7f) as u8 == c as u8) by (bit_vector)
            requires
                c < 0x80,
        ;
    } else {
        assert(0xc0 <= (0xC0 | ((c >> 6) & 0x1F) as u8)) by (bit_vector);
        assert(0xc0 <= (0xE0 | ((c >> 12) & 0x0F) as u8)) by (bit_vector);
        assert(0xc0 <= (0xF0 | ((c >> 18) & 0x7) as u8)) by (bit_vector);
        assert(0x80 <= (0x80 | (c & 0x3F) as u8) <= 0xbf) by (bit_vector);
        assert(0x80 <= (0x80 | ((c >> 6) & 0x3F) as u8) <= 0xbf) by (bit_vector);
        assert(0x80 <= (0x80 | ((c >> 12) & 0x3F) as u8) <= 0xbf) by (bit_vector);
    }
}

proof fn lemma_encode_first(s: Seq<char>)
    requires
        s.len() > 0,
    ensures
        encode_utf8(s) == encode_scalar(s[0] as u32) + encode_utf8(s.drop_first()),
{
}

proof fn lemma_encode_append(s: Seq<char>, c: char)
    ensures
        encode_utf8(s.push(c)) == encode_utf8(s) + encode_scalar(c as u32),
    decreases s.len(),
{
    if s.len() == 0 {
        assert(s.push(c).drop_first() =~= Seq::<char>::empty());
        lemma_encode_first(s.push(c));
        assert(s.push(c)[0] == c);
        assert(encode_utf8(Seq::<char>::empty()) =~= Seq::<u8>::empty());
        assert(encode_utf8(s.push(c)) =~= encode_utf8(s) + encode_scalar(c as u32));
    } else {
        lemma_encode_append(s.drop_first(), c);
        assert(s.push(c).drop_first() =~= s.drop_first().push(c));
        assert(encode_utf8(s.push(c)) =~= encode_utf8(s) + encode_scalar(c as u32));
    }
}

/// Two equal leading bytes are two equal ASCII characters.
proof fn lemma_byte_pair(s: Seq<char>)
    requires
        encode_utf8(s).len() >= 2,
    ensures
        (encode_utf8(s)[0] == encode_utf8(s)[1]) == (s.len() >= 2 && is_ascii_char(s[0])
            && is_ascii_char(s[1]) && s[0] == s[1]),
        (s.len() >= 2 && is_ascii_char(s[0]) && is_ascii_char(s[1])) ==> encode_utf8(s) == seq![
            s[0] as u32 as u8,
            s[1] as u32 as u8,
        ] + encode_utf8(s.skip(2)),
{
    assert(s.len() > 0);
    vstd::utf8::char_is_scalar(s[0]);
    lemma_encode_first(s);
    lemma_scalar_bytes(s[0] as u32);
    let b = encode_utf8(s);
    if is_ascii_char(s[0]) {
        let t = s.drop_first();
        assert(t.len() > 0);
        vstd::utf8::char_is_scalar(t[0]);
        lemma_encode_first(t);
        lemma_scalar_bytes(t[0] as u32);
        assert(b[1] == encode_utf8(t)[0]);
        assert(t[0] == s[1]);
        if is_ascii_char(s[1]) {
            assert(t.drop_first() =~= s.skip(2));
            assert(b =~= seq![s[0] as u32 as u8, s[1] as u32 as u8] + encode_utf8(s.skip(2)));
            if b[0] == b[1] {
                assert(s[0] as u32 == s[1] as u32);
                vstd::utf8::char_u32_cast(s[0], s[0] as u32);
                vstd::utf8::char_u32_cast(s[1], s[1] as u32);
            }
        }
    }
}

proof fn lemma_hex_pairs_bytes(s: Seq<char>)
    requires
        encode_utf8(s).len() >= 6,
    ensures
        ({
            let b = encode_utf8(s);
            b[0] == b[1] && b[2] == b[3] && b[4] == b[5]
        }) == hex_pairs_doubled(s),
{
    let b = encode_utf8(s);
    lemma_byte_pair(s);
    if s.len() >= 2 && is_ascii_char(s[0]) && is_ascii_char(s[1]) {
        let s2 = s.skip(2);
        assert(b.skip(2) =~= encode_utf8(s2));
        lemma_byte_pair(s2);
        if s2.len() >= 2 && is_ascii_char(s2[0]) && is_ascii_char(s2[1]) {
            let s4 = s2.skip(2);
            assert(encode_utf8(s2).skip(2) =~= encode_utf8(s4));
            lemma_byte_pair(s4);
            assert(s4 =~= s.skip(4));
            assert(s2[0] == s[2] && s2[1] == s[3]);
            if s4.len() >= 2 {
                assert(s4[0] == s[4] && s4[1] == s[5]);
            }
            assert(b[2] == encode_utf8(s2)[0] && b[3] == encode_utf8(s2)[1]);
            assert(b[4] == encode_utf8(s4)[0] && b[5] == encode_utf8(s4)[1]);
            if hex_pairs_doubled(s) {
                assert(is_ascii_char(s[4]) && is_ascii_char(s[5]));
            }
        } else {
            assert(b[2] == encode_utf8(s2)[0] && b[3] == encode_utf8(s2)[1]);
            if hex_pairs_doubled(s) {
                assert(is_ascii_char(s[2]) && is_ascii_char(s[3]));
                assert(s2[0] == s[2] && s2[1] == s[3]);
            }
        }
    } else {
        if hex_pairs_doubled(s) {
            assert(is_ascii_char(s[0]) && is_ascii_char(s[1]));
        }
    }
}

/// Shortens the text of a color as the format stores it: where the first
/// six bytes are equal in pairs, `#` and bytes 1, 3 and 5; then a trailing
/// `FF` (opaque alpha) dropped.
pub fn optimize_hex_color(input: String) -> (res: String)
    requires
        encode_utf8(input@).len() >= 6,
    ensures
        res@ == optimize_hex_spec(input@),
{
    let bytes = input.as_str().as_bytes();
    proof {
        lemma_hex_pairs_bytes(input@);
    }
    let cs = chars_of(input.as_str());
    let mut t: Vec<char> = if bytes[0] == bytes[1] && bytes[2] == bytes[3] && bytes[4] == bytes[5] {
        let mut v: Vec<char> = Vec::new();
        v.push('#');
        v.push(cs[1]);
        v.push(cs[3]);
        v.push(cs[5]);
        v
    } else {
        cs
    };
    let n = t.len();
    if n >= 2 && t[n - 2] == 'F' && t[n - 1] == 'F' {
        t.truncate(n - 2);
    }
    assert(t@ =~= optimize_hex_spec(input@));
    string_of(&t)
}


/// ASCII text takes one byte per character.
pub proof fn lemma_ascii_encode_len(s: Seq<char>)
    requires
        forall|i: int| 0 <= i < s.len() ==> is_ascii_char(#[trigger] s[i]),
    ensures
        encode_utf8(s).len() == s.len(),
    decreases s.len(),
{
    if s.len() > 0 {
        lemma_encode_first(s);
        vstd::utf8::char_is_scalar(s[0]);
        assert(is_ascii_char(s[0]));
        lemma_scalar_bytes(s[0] as u32);
        let t = s.drop_first();
        assert forall|i: int| 0 <= i < t.len() implies is_ascii_char(#[trigger] t[i]) by {
            assert(t[i] == s[i + 1]);
        }
        lemma_ascii_encode_len(t);
    }
}

/// The text of a color is nine ASCII characters.
pub proof fn lemma_display_rgba_ascii(p: Rgba)
    ensures
        display_rgba_spec(p).len() == 9,
        forall|i: int| 0 <= i < 9 ==> is_ascii_char(#[trigger] display_rgba_spec(p)[i]),
        encode_utf8(display_rgba_spec(p)).len() == 9,
{
    let d = display_rgba_spec(p);
    assert forall|i: int| 0 <= i < d.len() implies is_ascii_char(#[trigger] d[i]) by {
        assert(d[i] == '#' || exists|b: u8| #[trigger] hex2(b)[0] == d[i] || hex2(b)[1] == d[i]) by {
            if i == 1 || i == 2 { assert(d[i] == hex2(p.r)[i - 1]); }
            else if i == 3 || i == 4 { assert(d[i] == hex2(p.g)[i - 3]); }
            else if i == 5 || i == 6 { assert(d[i] == hex2(p.b)[i - 5]); }
            else if i == 7 || i == 8 { assert(d[i] == hex2(p.a)[i - 7]); }
        }
        if d[i] != '#' {
            let b = choose|b: u8| #[trigger] hex2(b)[0] == d[i] || hex2(b)[1] == d[i];
            lemma_hex2_ascii(b);
        }
    }
    lemma_ascii_encode_len(d);
}

proof fn lemma_hex2_ascii(b: u8)
    ensures
        is_ascii_char(hex2(b)[0]),
        is_ascii_char(hex2(b)[1]),
{
    let h = b as int / 16;
    let l = b as int % 16;
    assert(0 <= h < 16 && 0 <= l < 16);
    assert((hex_digit_upper(h) as u32) < 0x80);
    assert((hex_digit_upper(l) as u32) < 0x80);
}

} // verus!
