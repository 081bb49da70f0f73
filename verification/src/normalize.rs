//! Unicode normalization of text, by `icu_normalizer`.

use vstd::prelude::*;
use icu_normalizer::ComposingNormalizer;

verus! {

/// The Normalization Form C of `text`, as `icu_normalizer` computes it from
/// the Unicode data that it was built with.
pub uninterp spec fn nfc(text: Seq<char>) -> Seq<char>;

/// Calls `ComposingNormalizer::new_nfc` and `normalize_iter` on the characters
/// of `fragment`, and collects the characters that come out. The result is
/// the Normalization Form C of `fragment`.
#[verifier::external_body]
pub(crate) fn normalize(fragment: &str) -> (r: String)
    ensures
        r@ == nfc(fragment@),
{
    ComposingNormalizer::new_nfc().normalize_iter(fragment.chars()).collect()
}

} // verus!
