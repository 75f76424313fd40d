//! Node identifiers.
//!
//! Every node carries a 128-bit unique identifier, written in documents in
//! the UUID form. The identifier itself is held as a plain `u128`; only the
//! textual parsing and rendering go through the `uuid` crate.

use vstd::prelude::*;

verus! {

/// What `uuid::Uuid::try_parse` makes of a string: `Some` of the 128-bit
/// value when the string is a well-formed UUID, `None` otherwise.
pub uninterp spec fn spec_parse_id(s: Seq<char>) -> Option<u128>;

/// The canonical hyphenated rendering of an identifier.
pub uninterp spec fn spec_id_str(id: u128) -> Seq<char>;

/// Relies on `uuid::Uuid::try_parse` (with `as_u128`): whether a string
/// parses as a UUID, and to which value, depends on the characters alone.
#[verifier::external_body]
pub(crate) fn parse_id(s: &str) -> (r: Option<u128>)
    ensures
        r == spec_parse_id(s@),
{
    match uuid::Uuid::try_parse(s) {
        Ok(u) => Some(u.as_u128()),
        Err(_) => None,
    }
}

/// Relies on `uuid::Uuid::from_u128` and the hyphenated `Display` form: the
/// rendering depends on the value alone, is 36 characters long, and is parsed
/// back to the same value by `uuid::Uuid::try_parse`.
#[verifier::external_body]
pub(crate) fn id_to_string(id: u128) -> (r: String)
    ensures
        r@ == spec_id_str(id),
        r@.len() == 36,
        spec_parse_id(r@) == Some(id),
{
    uuid::Uuid::from_u128(id).hyphenated().to_string()
}

} // verus!
