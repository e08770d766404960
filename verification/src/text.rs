//! Case conversion and character classification, provided by the
//! standard library.
//!
//! The results of full Unicode case conversion and of the white-space
//! classification are functions of their input alone; they are given
//! names here rather than spelled out, and the contracts of this crate
//! speak of those names.

use vstd::prelude::*;

verus! {

/// The lowercase conversion of a character sequence, as
/// `str::to_lowercase` computes it.
pub uninterp spec fn lower_of(s: Seq<char>) -> Seq<char>;

/// The uppercase conversion of a character sequence, as
/// `str::to_uppercase` computes it.
pub uninterp spec fn upper_of(s: Seq<char>) -> Seq<char>;

/// Whether a character has the Unicode white-space property, as
/// `char::is_whitespace` decides it.
pub uninterp spec fn is_space_char(c: char) -> bool;

/// Relies on str::to_lowercase: the result depends on the characters
/// alone.
#[verifier::external_body]
pub(crate) fn to_lowercase(s: &str) -> (r: String)
    ensures
        r@ == lower_of(s@),
{
    s.to_lowercase()
}

/// Relies on str::to_uppercase: the result depends on the characters
/// alone.
#[verifier::external_body]
pub(crate) fn to_uppercase(s: &str) -> (r: String)
    ensures
        r@ == upper_of(s@),
{
    s.to_uppercase()
}

/// Relies on char::is_whitespace: the result depends on the character
/// alone.
#[verifier::external_body]
pub(crate) fn is_space(c: char) -> (r: bool)
    ensures
        r == is_space_char(c),
{
    c.is_whitespace()
}

} // verus!
