//! The character classifier: maps a character to the coarse class that the
//! heat profile is built from.
use vstd::prelude::*;
use crate::unicode::{
    is_whitespace_char, is_numeric_char, is_alphabetic_char, whitespace, numeric, alphabetic,
};

verus! {

/// Coarse class of a character. `First` is the classifier's initial state,
/// before any character has been seen; it is never the class of a character.
#[derive(PartialEq, Eq, Structural, Clone, Copy, Debug)]
pub enum CharClass {
    Separator,
    Numeric,
    Alphabetic,
    First,
    Other,
}

/// Whether a character separates words: whitespace or one of `- _ : . / \`.
pub open spec fn spec_is_separator(c: char) -> bool {
    is_whitespace_char(c) || c == '-' || c == '_' || c == ':' || c == '.' || c == '/' || c
        == '\\'
}

/// The class of a character: separators first, then numeric, then
/// alphabetic, anything else `Other`.
pub open spec fn spec_char_class(c: char) -> CharClass {
    if spec_is_separator(c) {
        CharClass::Separator
    } else if is_numeric_char(c) {
        CharClass::Numeric
    } else if is_alphabetic_char(c) {
        CharClass::Alphabetic
    } else {
        CharClass::Other
    }
}

pub fn is_separator(c: char) -> (r: bool)
    ensures
        r == spec_is_separator(c),
{
    whitespace(c) || c == '-' || c == '_' || c == ':' || c == '.' || c == '/' || c == '\\'
}

pub fn char_class(c: char) -> (r: CharClass)
    ensures
        r == spec_char_class(c),
{
    let mut result = CharClass::Other;
    if is_separator(c) {
        result = CharClass::Separator;
    } else if numeric(c) {
        result = CharClass::Numeric;
    } else if alphabetic(c) {
        result = CharClass::Alphabetic;
    }
    result
}

} // verus!
