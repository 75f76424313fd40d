//! Conversions between strings and character vectors.
//!
//! The link tokenizer scans text character by character; these two wrappers
//! move between `String` and `Vec<char>` without changing the characters.

use vstd::prelude::*;

verus! {

/// Relies on `String`'s `FromIterator<char>`: collecting characters yields
/// the string of exactly those characters.
#[verifier::external_body]
pub(crate) fn chars_to_string(v: &Vec<char>) -> (r: String)
    ensures
        r@ == v@,
{
    v.iter().collect()
}

/// Relies on `str::chars`: the characters of the string, in order.
#[verifier::external_body]
pub(crate) fn string_to_chars(s: &str) -> (r: Vec<char>)
    ensures
        r@ == s@,
{
    s.chars().collect()
}

} // verus!
