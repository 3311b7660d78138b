//! Character classification.
//!
//! Fragment names may contain alphanumeric characters (in the Unicode sense)
//! plus `-` and `_`, and tags are delimited by Unicode whitespace.  The two
//! Unicode predicates are taken from the standard library; their full tables
//! cannot reasonably be restated here, so each is given an opaque spec-level
//! name that the rest of the crate's contracts are phrased over.

use vstd::prelude::*;

verus! {

/// Whether `c` has the Unicode `White_Space` property, as decided by
/// `char::is_whitespace`.
pub uninterp spec fn is_whitespace_char(c: char) -> bool;

/// Whether `c` is alphanumeric in the Unicode sense, as decided by
/// `char::is_alphanumeric`.
pub uninterp spec fn is_alphanumeric_char(c: char) -> bool;

/// Relies on `char::is_whitespace`: the result depends on the character
/// alone.
#[verifier::external_body]
pub fn char_is_whitespace(c: char) -> (r: bool)
    ensures
        r == is_whitespace_char(c),
{
    c.is_whitespace()
}

/// Relies on `char::is_alphanumeric`: the result depends on the character
/// alone.
#[verifier::external_body]
pub fn char_is_alphanumeric(c: char) -> (r: bool)
    ensures
        r == is_alphanumeric_char(c),
{
    c.is_alphanumeric()
}

} // verus!
