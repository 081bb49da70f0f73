//! Facts about UTF-8 that the scan for escapes and markers rests on.

use vstd::prelude::*;
use vstd::utf8::{char_is_scalar, char_u32_cast, encode_scalar, encode_utf8, encode_utf8_decode_utf8, has_width_1_encoding, is_scalar, last_continuation_byte, leading_byte_width_1, leading_byte_width_2, leading_byte_width_3, leading_byte_width_4, second_last_continuation_byte, third_last_continuation_byte};

verus! {

/// Two characters with the same number are the same character.
pub proof fn lemma_char_of_number(c: char, d: char)
    ensures
        c as u32 == d as u32 ==> c == d,
{
    char_u32_cast(c, c as u32);
    char_u32_cast(d, d as u32);
}

/// A character below U+0080 is encoded as the one byte of its number; every
/// byte of the encoding of another character is 0x80 or more.
pub proof fn lemma_scalar_bytes(c: u32)
    requires
        is_scalar(c),
    ensures
        c < 0x80 ==> encode_scalar(c) == seq![c as u8],
        c >= 0x80 ==> forall|i: int|
            0 <= i < encode_scalar(c).len() ==> #[trigger] encode_scalar(c)[i] >= 0x80,
        encode_scalar(c).len() >= 1,
{
    if has_width_1_encoding(c) {
        assert(leading_byte_width_1(c) == c as u8) by (bit_vector)
            requires
                c <= 0x7f,
        ;
    } else {
        assert(leading_byte_width_2(c) >= 0x80) by (bit_vector);
        assert(leading_byte_width_3(c) >= 0x80) by (bit_vector);
        assert(leading_byte_width_4(c) >= 0x80) by (bit_vector);
        assert(last_continuation_byte(c) >= 0x80) by (bit_vector);
        assert(second_last_continuation_byte(c) >= 0x80) by (bit_vector);
        assert(third_last_continuation_byte(c) >= 0x80) by (bit_vector);
    }
}

/// A byte below 0x80 stands in the UTF-8 encoding of a text exactly where
/// the text holds the character with that number.
pub proof fn lemma_ascii_byte_in_utf8(text: Seq<char>, byte: u8)
    requires
        byte < 0x80,
    ensures
        encode_utf8(text).contains(byte) <==> exists|i: int|
            0 <= i < text.len() && #[trigger] text[i] as u32 == byte as u32,
    decreases text.len(),
{
    let bytes = encode_utf8(text);
    if text.len() == 0 {
        assert(!bytes.contains(byte));
    } else {
        let head = encode_scalar(text[0] as u32);
        let rest = text.drop_first();
        char_is_scalar(text[0]);
        lemma_scalar_bytes(text[0] as u32);
        lemma_ascii_byte_in_utf8(rest, byte);
        assert(bytes == head + encode_utf8(rest));
        if bytes.contains(byte) {
            let at = choose|at: int| 0 <= at < bytes.len() && bytes[at] == byte;
            if at < head.len() {
                assert(head[at] == byte);
                assert(text[0] as u32 == byte as u32);
            } else {
                assert(encode_utf8(rest)[at - head.len()] == byte);
                assert(encode_utf8(rest).contains(byte));
                let i = choose|i: int| 0 <= i < rest.len() && #[trigger] rest[i] as u32 == byte as u32;
                assert(text[i + 1] as u32 == byte as u32);
            }
        }
        if exists|i: int| 0 <= i < text.len() && #[trigger] text[i] as u32 == byte as u32 {
            let i = choose|i: int| 0 <= i < text.len() && #[trigger] text[i] as u32 == byte as u32;
            if i == 0 {
                assert(bytes[0] == byte);
            } else {
                assert(rest[i - 1] as u32 == byte as u32);
                let at = choose|at: int|
                    0 <= at < encode_utf8(rest).len() && encode_utf8(rest)[at] == byte;
                assert(bytes[head.len() + at] == byte);
            }
        }
    }
}

/// Two texts with the same UTF-8 encoding are the same text.
pub proof fn lemma_encode_injective(a: Seq<char>, b: Seq<char>)
    requires
        encode_utf8(a) == encode_utf8(b),
    ensures
        a == b,
{
    encode_utf8_decode_utf8(a);
    encode_utf8_decode_utf8(b);
}

/// The encoding of two texts one after the other is their encodings one
/// after the other.
pub proof fn lemma_encode_concat(a: Seq<char>, b: Seq<char>)
    ensures
        encode_utf8(a + b) == encode_utf8(a) + encode_utf8(b),
    decreases a.len(),
{
    if a.len() == 0 {
        assert(a + b =~= b);
        assert(encode_utf8(a) + encode_utf8(b) =~= encode_utf8(b));
    } else {
        lemma_encode_concat(a.drop_first(), b);
        assert((a + b).drop_first() =~= a.drop_first() + b);
        assert(encode_utf8(a + b) =~= encode_utf8(a) + encode_utf8(b));
    }
}

} // verus!
