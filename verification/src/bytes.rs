//! The byte-level alphabet: every byte value is shown as one printable
//! character, so that any UTF-8 text becomes a string over 256 symbols that
//! contains no white space and no control character.
//!
//! Bytes `!`..`~`, `¡`..`¬` and `®`..`ÿ` stand for themselves; the other 68
//! byte values, in increasing order, take the code points from U+0100 on.

use vstd::prelude::*;
use vstd::utf8::*;
use crate::unicode::{char_from_u32, spec_is_whitespace};

verus! {

/// Bytes that are shown as the character of the same code point.
pub open spec fn byte_shows_itself(b: u8) -> bool {
    (33 <= b <= 126) || (161 <= b <= 172) || (174 <= b <= 255)
}

/// The code point that stands for byte `b`.
pub open spec fn byte_code(b: u8) -> u32 {
    if byte_shows_itself(b) {
        b as u32
    } else if b <= 32 {
        (256 + b) as u32
    } else if b <= 160 {
        (b + 162) as u32
    } else {
        323
    }
}

/// The character that stands for byte `b`.
pub open spec fn spec_byte_to_char(b: u8) -> char {
    byte_code(b) as char
}

/// The byte that character `c` stands for, if it stands for one.
pub open spec fn spec_char_to_byte(c: char) -> Option<u8> {
    let v = c as u32;
    if (33 <= v <= 126) || (161 <= v <= 172) || (174 <= v <= 255) {
        Some(v as u8)
    } else if 256 <= v <= 288 {
        Some((v - 256) as u8)
    } else if 289 <= v <= 322 {
        Some((v - 162) as u8)
    } else if v == 323 {
        Some(173u8)
    } else {
        None
    }
}

/// The characters that stand for the bytes of `bytes`, one each.
pub open spec fn spec_bytes_to_chars(bytes: Seq<u8>) -> Seq<char> {
    bytes.map_values(|b: u8| spec_byte_to_char(b))
}

proof fn lemma_byte_code_scalar(b: u8)
    ensures
        is_scalar(byte_code(b)),
        byte_code(b) <= 323,
{
}

/// The byte alphabet is GPT-2's: the bytes `!`..`~`, `¡`..`¬` and `®`..`ÿ`
/// are shown as the character of the same code point; each of the other 68
/// bytes takes a code point from U+0100 to U+0143, in increasing order of
/// the bytes (so byte 0 is U+0100 and byte 0x80 is U+0122).
pub proof fn lemma_byte_alphabet_layout(a: u8, b: u8)
    ensures
        (33 <= a <= 126 || 161 <= a <= 172 || 174 <= a <= 255) ==> spec_byte_to_char(a) as u32
            == a as u32,
        !(33 <= a <= 126 || 161 <= a <= 172 || 174 <= a <= 255) ==> 256 <= spec_byte_to_char(a) as u32
            <= 323,
        !(33 <= a <= 126 || 161 <= a <= 172 || 174 <= a <= 255) && !(33 <= b <= 126 || 161 <= b
            <= 172 || 174 <= b <= 255) && a < b ==> (spec_byte_to_char(a) as u32) < (spec_byte_to_char(
            b,
        ) as u32),
        a == 0 ==> spec_byte_to_char(a) as u32 == 256,
{
    lemma_byte_char_round_trip(a);
    lemma_byte_char_round_trip(b);
}

/// The character standing for a byte is read back as that byte.
pub proof fn lemma_byte_char_round_trip(b: u8)
    ensures
        spec_char_to_byte(spec_byte_to_char(b)) == Some(b),
        (spec_byte_to_char(b) as u32) == byte_code(b),
{
    lemma_byte_code_scalar(b);
    let v = byte_code(b);
    assert((v as char) as u32 == v) by {
        vstd::utf8::char_u32_cast(v as char, (v as char) as u32);
    }
}

/// A character read as a byte is the character standing for that byte.
pub proof fn lemma_char_byte_round_trip(c: char)
    ensures
        spec_char_to_byte(c) matches Some(b) ==> spec_byte_to_char(b) == c,
{
    if let Some(b) = spec_char_to_byte(c) {
        let v = c as u32;
        assert(byte_code(b) == v);
        vstd::utf8::char_u32_cast(c, v);
    }
}

/// Distinct bytes stand for distinct characters.
pub proof fn lemma_byte_to_char_injective(a: u8, b: u8)
    ensures
        spec_byte_to_char(a) == spec_byte_to_char(b) ==> a == b,
{
    lemma_byte_char_round_trip(a);
    lemma_byte_char_round_trip(b);
}

/// No character of the byte alphabet is white space.
pub proof fn lemma_byte_char_not_whitespace(b: u8)
    ensures
        !spec_is_whitespace(spec_byte_to_char(b)),
{
    lemma_byte_char_round_trip(b);
}

/// The character that stands for byte `b`.
pub fn byte_to_char(b: u8) -> (c: char)
    ensures
        c == spec_byte_to_char(b),
{
    proof {
        lemma_byte_char_round_trip(b);
    }
    let v: u32 = if (33 <= b && b <= 126) || (161 <= b && b <= 172) || 174 <= b {
        b as u32
    } else if b <= 32 {
        256 + b as u32
    } else if b <= 160 {
        b as u32 + 162
    } else {
        323
    };
    let c = char_from_u32(v).unwrap();
    proof {
        vstd::utf8::char_u32_cast(c, v);
    }
    c
}

/// The byte that `c` stands for, or `None` when `c` is outside the byte
/// alphabet.
pub fn char_to_byte(c: char) -> (r: Option<u8>)
    ensures
        r == spec_char_to_byte(c),
{
    let v = c as u32;
    if (33 <= v && v <= 126) || (161 <= v && v <= 172) || (174 <= v && v <= 255) {
        Some(v as u8)
    } else if 256 <= v && v <= 288 {
        Some((v - 256) as u8)
    } else if 289 <= v && v <= 322 {
        Some((v - 162) as u8)
    } else if v == 323 {
        Some(173u8)
    } else {
        None
    }
}

} // verus!
