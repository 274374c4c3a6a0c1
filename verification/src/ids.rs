//! Block identifiers: 128-bit values generated and rendered through the
//! `uuid` crate. The canonical text form of an identifier is named by
//! `uuid_text_of`; the library never states what that text is, only that
//! rendering and parsing agree on it.

use vstd::prelude::*;

verus! {

/// The canonical hyphenated text of the UUID whose 128 bits are `id`.
pub uninterp spec fn uuid_text_of(id: u128) -> Seq<char>;

/// Whether `uuid::Uuid::parse_str` accepts `s`. Acceptance is a pure
/// function of the characters alone.
pub uninterp spec fn uuid_parse_ok(s: Seq<char>) -> bool;

/// Relies on `uuid::Uuid::now_v7` and `Uuid::as_u128`: a freshly generated,
/// time-ordered version-7 identifier. The value depends on the clock and on
/// random state, so nothing is stated of it.
#[verifier::external_body]
pub(crate) fn fresh_id() -> u128 {
    uuid::Uuid::now_v7().as_u128()
}

/// Relies on `uuid::Uuid::from_u128` and the `Display` form of `uuid::Uuid`:
/// the hyphenated rendering is a pure function of the 128 bits and is always
/// 36 characters long.
#[verifier::external_body]
pub(crate) fn id_to_text(id: u128) -> (r: String)
    ensures
        r@ == uuid_text_of(id),
        r@.len() == 36,
{
    uuid::Uuid::from_u128(id).to_string()
}

/// Relies on `uuid::Uuid::parse_str` and `Uuid::as_u128`: whether parsing
/// accepts `s` depends on the characters alone, and parsing the canonical
/// hyphenated text of an identifier yields that identifier back.
#[verifier::external_body]
pub(crate) fn parse_id(s: &str) -> (r: Option<u128>)
    ensures
        r is Some <==> uuid_parse_ok(s@),
        forall|id: u128| s@ == uuid_text_of(id) ==> r == Some(id),
{
    match uuid::Uuid::parse_str(s) {
        Ok(u) => Some(u.as_u128()),
        Err(_) => None,
    }
}

} // verus!
