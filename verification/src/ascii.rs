//! ASCII characters in UTF-8 text.
//!
//! A `str` is a sequence of characters to contracts and a sequence of
//! bytes to the machine. An ASCII character is encoded as the one byte of
//! the same value, and no byte of another character's encoding is below
//! `0x80`. So a search for ASCII bytes finds ASCII characters, and a text
//! can be cut wherever such a byte stands.

use vstd::prelude::*;
use vstd::string::StringSliceAdditionalSpecFns;
use vstd::utf8::{
    char_u32_cast, decode_utf8_split, encode_scalar, encode_utf8, encode_utf8_decode_utf8,
    encode_utf8_valid_utf8, is_char_boundary, is_char_boundary_iff_not_is_continuation_byte,
    is_char_boundary_start_end_of_seq,
};

verus! {

/// Characters of one value are one character.
pub proof fn lemma_same_value(c: char, d: char)
    requires
        c as u32 == d as u32,
    ensures
        c == d,
{
    char_u32_cast(c, c as u32);
    char_u32_cast(d, d as u32);
}

/// An ASCII character is encoded as the single byte of its value.
pub proof fn lemma_encode_ascii(c: char)
    requires
        c as u32 <= 0x7f,
    ensures
        encode_scalar(c as u32) == seq![(c as u32) as u8],
{
    let v = c as u32;
    assert(v & 0x7f == v) by (bit_vector)
        requires
            v <= 0x7f,
    ;
}

/// The encoding of a text begins with the encoding of its first character.
pub proof fn lemma_encode_first(chars: Seq<char>)
    requires
        chars.len() > 0,
    ensures
        encode_utf8(chars) == encode_scalar(chars[0] as u32) + encode_utf8(chars.drop_first()),
        encode_scalar(chars[0] as u32).len() >= 1,
{
}

/// Encoding distributes over concatenation.
pub proof fn lemma_encode_concat(a: Seq<char>, b: Seq<char>)
    ensures
        encode_utf8(a + b) == encode_utf8(a) + encode_utf8(b),
    decreases a.len(),
{
    if a.len() == 0 {
        assert(a + b == b);
    } else {
        assert((a + b).drop_first() == a.drop_first() + b);
        lemma_encode_concat(a.drop_first(), b);
    }
}

/// Only the empty text has an empty encoding.
pub proof fn lemma_encode_empty(chars: Seq<char>)
    ensures
        encode_utf8(chars).len() == 0 <==> chars.len() == 0,
{
    if chars.len() > 0 {
        lemma_encode_first(chars);
    }
}

/// An ASCII character of a text stands as a byte in its encoding.
pub proof fn lemma_ascii_char_is_encoded(chars: Seq<char>, i: int) -> (p: int)
    requires
        0 <= i < chars.len(),
        chars[i] as u32 <= 0x7f,
    ensures
        0 <= p < encode_utf8(chars).len(),
        encode_utf8(chars)[p] as u32 == chars[i] as u32,
        i + 1 == chars.len() ==> p + 1 == encode_utf8(chars).len(),
        i + 1 < chars.len() && chars[i + 1] as u32 <= 0x7f ==> p + 1 < encode_utf8(chars).len()
            && encode_utf8(chars)[p + 1] as u32 == chars[i + 1] as u32,
{
    let head = chars.take(i);
    let tail = chars.skip(i);
    assert(chars == head + tail);
    lemma_encode_concat(head, tail);
    lemma_encode_first(tail);
    lemma_encode_ascii(chars[i]);
    let rest = tail.drop_first();
    if i + 1 == chars.len() {
        assert(rest.len() == 0);
    } else if chars[i + 1] as u32 <= 0x7f {
        lemma_encode_first(rest);
        lemma_encode_ascii(chars[i + 1]);
    }
    encode_utf8(head).len() as int
}

/// A text whose encoding begins with an ASCII byte begins with the
/// character of that value, and the rest of the encoding encodes the rest
/// of the text.
pub proof fn lemma_ascii_byte_is_first_char(chars: Seq<char>)
    requires
        encode_utf8(chars).len() > 0,
        encode_utf8(chars)[0] <= 0x7f,
    ensures
        chars.len() > 0,
        chars[0] as u32 == encode_utf8(chars)[0] as u32,
        encode_utf8(chars.drop_first()) == encode_utf8(chars).subrange(
            1,
            encode_utf8(chars).len() as int,
        ),
{
    lemma_encode_empty(chars);
    lemma_encode_first(chars);
    let v = chars[0] as u32;
    if v <= 0x7f {
        lemma_encode_ascii(chars[0]);
    } else {
        let first = encode_scalar(v)[0];
        assert(first == encode_utf8(chars)[0]);
        assert(first >= 0x80) by {
            lemma_leading_byte_of_wide_char(v);
        }
    }
}

/// A text that is encoded as one ASCII byte is the one character of that
/// value.
pub proof fn lemma_ascii_byte_text(chars: Seq<char>) -> (c: char)
    requires
        encode_utf8(chars).len() == 1,
        encode_utf8(chars)[0] <= 0x7f,
    ensures
        chars == seq![c],
        c as u32 == encode_utf8(chars)[0] as u32,
{
    lemma_ascii_byte_is_first_char(chars);
    lemma_encode_empty(chars.drop_first());
    assert(chars == seq![chars[0]]);
    chars[0]
}

/// The encoding of a character beyond ASCII begins with a byte beyond ASCII.
proof fn lemma_leading_byte_of_wide_char(v: u32)
    requires
        v > 0x7f,
    ensures
        encode_scalar(v)[0] >= 0x80,
{
    assert((0xC0 | ((v >> 6) & 0x1F) as u8) >= 0x80) by (bit_vector);
    assert((0xE0 | ((v >> 12) & 0x0F) as u8) >= 0x80) by (bit_vector);
    assert((0xF0 | ((v >> 18) & 0x7) as u8) >= 0x80) by (bit_vector);
}

/// Cuts `text` in two at the byte position `mid`, where an ASCII
/// character stands or the text ends.
pub(crate) fn split_at_ascii<'a>(text: &'a str, mid: usize) -> (parts: (&'a str, &'a str))
    requires
        mid <= text.spec_bytes().len(),
        mid < text.spec_bytes().len() ==> text.spec_bytes()[mid as int] <= 0x7f,
    ensures
        text@ == parts.0@ + parts.1@,
        parts.0.spec_bytes() == text.spec_bytes().subrange(0, mid as int),
        parts.1.spec_bytes() == text.spec_bytes().subrange(
            mid as int,
            text.spec_bytes().len() as int,
        ),
{
    let ghost bytes = text.spec_bytes();
    proof {
        encode_utf8_valid_utf8(text@);
        if mid < bytes.len() {
            is_char_boundary_iff_not_is_continuation_byte(bytes, mid as int);
        } else {
            is_char_boundary_start_end_of_seq(bytes);
        }
    }
    let parts = text.split_at(mid);
    proof {
        decode_utf8_split(bytes, mid as int);
        encode_utf8_decode_utf8(text@);
        encode_utf8_decode_utf8(parts.0@);
        encode_utf8_decode_utf8(parts.1@);
    }
    parts
}

/// Drops the first character of `text`, an ASCII one.
pub(crate) fn drop_ascii<'a>(text: &'a str) -> (rest: &'a str)
    requires
        text.spec_bytes().len() > 0,
        text.spec_bytes()[0] <= 0x7f,
    ensures
        text@.len() > 0,
        text@[0] as u32 == text.spec_bytes()[0] as u32,
        rest@ == text@.drop_first(),
        rest.spec_bytes() == text.spec_bytes().subrange(1, text.spec_bytes().len() as int),
{
    let ghost bytes = text.spec_bytes();
    proof {
        lemma_ascii_byte_is_first_char(text@);
        encode_utf8_valid_utf8(text@);
        assert(is_char_boundary(bytes, 1)) by {
            reveal_with_fuel(is_char_boundary, 2);
            encode_utf8_valid_utf8(text@.drop_first());
        }
    }
    let parts = text.split_at(1);
    proof {
        encode_utf8_decode_utf8(parts.1@);
        encode_utf8_decode_utf8(text@.drop_first());
    }
    parts.1
}

} // verus!
