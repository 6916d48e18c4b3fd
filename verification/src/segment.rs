//! Trusted bridge to Unicode segmentation and to std's UTF-8 string
//! construction. Everything here either names an outside computation or
//! states only what the outside documentation promises.

use unicode_segmentation::UnicodeSegmentation;
use vstd::prelude::*;
use vstd::utf8::*;

verus! {

/// Byte lengths, in order, of the extended grapheme clusters of a UTF-8
/// text, as Unicode segmentation finds them.
pub uninterp spec fn grapheme_split(b: Seq<u8>) -> Seq<usize>;

/// Byte lengths, in order, of the word-bounded segments of a UTF-8 text,
/// as Unicode segmentation finds them.
pub uninterp spec fn word_split(b: Seq<u8>) -> Seq<usize>;

/// Whether a character has the Unicode `Alphabetic` property.
pub uninterp spec fn is_alphabetic_char(c: char) -> bool;

/// Whether a character is numeric by Unicode general category.
pub uninterp spec fn is_numeric_char(c: char) -> bool;

/// Sum of the first `k` entries of a sequence of byte lengths.
pub open spec fn sum_prefix(s: Seq<usize>, k: int) -> int
    decreases k,
{
    if k <= 0 {
        0
    } else {
        sum_prefix(s, k - 1) + s[k - 1]
    }
}

/// Whether the text holds at least one alphanumeric character.
pub open spec fn has_alnum(b: Seq<u8>) -> bool {
    exists|i: int|
        0 <= i < decode_utf8(b).len() && (is_alphabetic_char(decode_utf8(b)[i]) || is_numeric_char(
            decode_utf8(b)[i],
        ))
}

/// Relies on `unicode_segmentation::UnicodeSegmentation::graphemes` (with
/// extended clusters) and `core::str::from_utf8`: the clusters partition the
/// text into non-empty substrings made of whole characters.
#[verifier::external_body]
pub fn grapheme_lens(s: &[u8]) -> (r: Vec<usize>)
    requires
        valid_utf8(s@),
    ensures
        r@ == grapheme_split(s@),
        sum_prefix(r@, r@.len() as int) == s@.len(),
        forall|k: int| 0 <= k < r@.len() ==> #[trigger] r@[k] >= 1,
        forall|k: int| 0 <= k <= r@.len() ==> is_char_boundary(s@, sum_prefix(r@, k)),
{
    match core::str::from_utf8(s) {
        Ok(text) => text.graphemes(true).map(|g| g.len()).collect(),
        Err(_) => Vec::new(),
    }
}

/// Relies on `unicode_segmentation::UnicodeSegmentation::split_word_bounds`
/// and `core::str::from_utf8`: the word-bounded segments partition the text
/// into non-empty substrings made of whole characters.
#[verifier::external_body]
pub fn word_bound_lens(s: &[u8]) -> (r: Vec<usize>)
    requires
        valid_utf8(s@),
    ensures
        r@ == word_split(s@),
        sum_prefix(r@, r@.len() as int) == s@.len(),
        forall|k: int| 0 <= k < r@.len() ==> #[trigger] r@[k] >= 1,
        forall|k: int| 0 <= k <= r@.len() ==> is_char_boundary(s@, sum_prefix(r@, k)),
{
    match core::str::from_utf8(s) {
        Ok(text) => text.split_word_bounds().map(|w| w.len()).collect(),
        Err(_) => Vec::new(),
    }
}

/// Relies on `str::chars`, `char::is_alphabetic` and `char::is_numeric`:
/// whether any character of the text is alphabetic or numeric.
#[verifier::external_body]
pub fn has_alphanumeric(s: &[u8]) -> (r: bool)
    requires
        valid_utf8(s@),
    ensures
        r == (exists|i: int|
            0 <= i < decode_utf8(s@).len() && (is_alphabetic_char(#[trigger] decode_utf8(s@)[i])
                || is_numeric_char(decode_utf8(s@)[i]))),
        r == has_alnum(s@),
{
    match core::str::from_utf8(s) {
        Ok(text) => text.chars().any(|c| c.is_alphabetic() || c.is_numeric()),
        Err(_) => false,
    }
}

/// Relies on `String::from_utf8`: on valid UTF-8 input it returns the string
/// those bytes encode.
#[verifier::external_body]
pub fn string_from_utf8(v: Vec<u8>) -> (r: String)
    requires
        valid_utf8(v@),
    ensures
        r@ == decode_utf8(v@),
{
    String::from_utf8(v).unwrap_or_default()
}

} // verus!
