//! The numeric guard: numbers are integers. A number that was rendered as
//! text is refused where the text has a decimal point or an exponent.

use vstd::prelude::*;
use vstd::utf8::encode_utf8;
use crate::utf8::{lemma_ascii_byte_in_utf8, lemma_char_of_number};

verus! {

/// `.`, `e` or `E`: the bytes that only the notation of a floating-point number holds.
pub open spec fn is_float_marker(byte: u8) -> bool {
    byte == 0x2e || byte == 0x65 || byte == 0x45
}

/// The text of the number holds a decimal point or an exponent marker.
pub open spec fn float_shaped(text: Seq<char>) -> bool {
    exists|i: int| 0 <= i < text.len() && (#[trigger] text[i] == '.' || text[i] == 'e' || text[i] == 'E')
}

/// `memchr3` returns the first position in `haystack` of a byte that is one
/// of the three needles, or `None` where it holds none of them.
pub assume_specification[ memchr::memchr3 ](
    needle1: u8,
    needle2: u8,
    needle3: u8,
    haystack: &[u8],
) -> (r: Option<usize>)
    ensures
        match r {
            Some(at) => {
                &&& at < haystack@.len()
                &&& (haystack@[at as int] == needle1 || haystack@[at as int] == needle2
                    || haystack@[at as int] == needle3)
                &&& forall|i: int|
                    0 <= i < at ==> #[trigger] haystack@[i] != needle1 && haystack@[i] != needle2
                        && haystack@[i] != needle3
            },
            None => forall|i: int|
                0 <= i < haystack@.len() ==> #[trigger] haystack@[i] != needle1 && haystack@[i]
                    != needle2 && haystack@[i] != needle3,
        },
;

/// Whether the text of a number holds a decimal point or an exponent marker.
pub fn is_float_shaped(value: &str) -> (r: bool)
    ensures
        r == float_shaped(value@),
{
    let found = memchr::memchr3(0x2e, 0x65, 0x45, value.as_bytes());
    proof {
        let text = value@;
        let bytes = encode_utf8(text);
        lemma_ascii_byte_in_utf8(text, 0x2e);
        lemma_ascii_byte_in_utf8(text, 0x65);
        lemma_ascii_byte_in_utf8(text, 0x45);
        assert('.' as u32 == 0x2e && 'e' as u32 == 0x65 && 'E' as u32 == 0x45);
        match found {
            Some(at) => {
                assert(bytes.contains(bytes[at as int]));
                let b = bytes[at as int];
                let i = choose|i: int| 0 <= i < text.len() && #[trigger] text[i] as u32 == b as u32;
                lemma_char_of_number(text[i], '.');
                lemma_char_of_number(text[i], 'e');
                lemma_char_of_number(text[i], 'E');
            },
            None => {
                if float_shaped(text) {
                    let i = choose|i: int|
                        0 <= i < text.len() && (#[trigger] text[i] == '.' || text[i] == 'e'
                            || text[i] == 'E');
                    let b: u8 = if text[i] == '.' {
                        0x2e
                    } else if text[i] == 'e' {
                        0x65
                    } else {
                        0x45
                    };
                    assert(text[i] as u32 == b as u32);
                    assert(bytes.contains(b));
                }
            },
        }
    }
    found.is_some()
}

} // verus!
