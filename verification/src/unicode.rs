//! The trusted boundary around Unicode questions: normalization comes from
//! the `unicode_normalization` crate, character properties from `std`.
//! Everything else in the crate is verified against the names below.
use vstd::prelude::*;
use unicode_normalization::UnicodeNormalization;

verus! {

/// The NFKC normalization (compatibility decomposition followed by canonical
/// composition) of a character sequence. A function of its argument alone.
pub uninterp spec fn nfkc_of(s: Seq<char>) -> Seq<char>;

/// Whether a character has the Unicode whitespace property.
pub uninterp spec fn is_whitespace_char(c: char) -> bool;

/// Whether a character has a Unicode numeric general category.
pub uninterp spec fn is_numeric_char(c: char) -> bool;

/// Whether a character has the Unicode alphabetic property.
pub uninterp spec fn is_alphabetic_char(c: char) -> bool;

/// Whether a character has the Unicode uppercase property.
pub uninterp spec fn is_uppercase_char(c: char) -> bool;

/// The full Unicode lowercase mapping of a character, one or more characters.
pub uninterp spec fn char_lower_of(c: char) -> Seq<char>;

/// Relies on `unicode_normalization`'s `UnicodeNormalization::nfkc` on `&str`:
/// the normalized form depends on the input characters alone, and an empty
/// input yields an empty iterator.
#[verifier::external_body]
pub fn nfkc_chars(s: &str) -> (r: Vec<char>)
    ensures
        r@ == nfkc_of(s@),
        s@.len() == 0 ==> r@.len() == 0,
{
    s.nfkc().collect()
}

/// Relies on `char::is_whitespace`: a pure Unicode property lookup.
#[verifier::external_body]
pub fn whitespace(c: char) -> (r: bool)
    ensures
        r == is_whitespace_char(c),
{
    c.is_whitespace()
}

/// Relies on `char::is_numeric`: a pure Unicode property lookup.
#[verifier::external_body]
pub fn numeric(c: char) -> (r: bool)
    ensures
        r == is_numeric_char(c),
{
    c.is_numeric()
}

/// Relies on `char::is_alphabetic`: a pure Unicode property lookup.
#[verifier::external_body]
pub fn alphabetic(c: char) -> (r: bool)
    ensures
        r == is_alphabetic_char(c),
{
    c.is_alphabetic()
}

/// Relies on `char::is_uppercase`: a pure Unicode property lookup.
#[verifier::external_body]
pub fn uppercase(c: char) -> (r: bool)
    ensures
        r == is_uppercase_char(c),
{
    c.is_uppercase()
}

/// Relies on `char::to_lowercase`, which by its documentation yields the
/// lowercase mapping as one or more characters, a function of `c` alone.
#[verifier::external_body]
pub fn lowercase_chars(c: char) -> (r: Vec<char>)
    ensures
        r@ == char_lower_of(c),
        r@.len() >= 1,
{
    c.to_lowercase().collect()
}

/// Relies on `str`'s `PartialEq`: two string slices are equal exactly when
/// their character sequences are.
#[verifier::external_body]
pub fn str_eq(a: &str, b: &str) -> (r: bool)
    ensures
        r == (a@ == b@),
{
    a == b
}

} // verus!
