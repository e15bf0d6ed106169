//! Text normalization: Unicode default case folding followed by canonical
//! composition (NFC).
//!
//! The same normalization is applied to every record's text when the corpus
//! is built and to the query when a search is made; matching is defined
//! entirely over the normalized forms.

use unicode_normalization::UnicodeNormalization;
use vstd::prelude::*;

verus! {

/// The normalized form (case fold, then NFC) of a character sequence.
///
/// The exact character-level result is given by the Unicode tables and is
/// not restated here; it is a function of the input characters alone, so
/// the same input always normalizes to the same output.
pub uninterp spec fn normal_of(s: Seq<char>) -> Seq<char>;

/// Normalize text for matching: full Unicode default case folding, then
/// canonical composition (NFC).
///
/// Relies on `caseless::default_case_fold_str` and
/// `unicode_normalization::UnicodeNormalization::nfc`: both are pure
/// functions of the input characters (fold maps each character through the
/// default case-folding table; `nfc` canonically composes the stream), so
/// the result depends on the input characters alone, and an empty input
/// folds and composes to an empty output.
#[verifier::external_body]
pub fn normalise_text(text: &str) -> (r: String)
    ensures
        r@ == normal_of(text@),
        text@.len() == 0 ==> r@.len() == 0,
{
    caseless::default_case_fold_str(text).nfc().collect()
}

/// The characters of a string, in order, as a vector.
pub fn text_chars(s: &str) -> (r: Vec<char>)
    ensures
        r@ == s@,
{
    let n = s.unicode_len();
    let mut r: Vec<char> = Vec::new();
    let mut i: usize = 0;
    while i < n
        invariant
            n == s@.len(),
            i <= n,
            r@ == s@.take(i as int),
        decreases n - i,
    {
        r.push(s.get_char(i));
        i = i + 1;
        assert(r@ =~= s@.take(i as int));
    }
    assert(r@ =~= s@);
    r
}

} // verus!
