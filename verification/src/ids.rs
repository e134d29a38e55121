//! Identifiers: 128-bit values that permanently name one asset instance.
//!
//! The editable representation stores reference-typed property values as the
//! canonical text form of an identifier, so the text form and its parser are
//! part of the data model.  Both come from the `uuid` crate and are trusted
//! at their documented interface.

use vstd::prelude::*;

verus! {

/// Identifier of the built-in schema that renders an object as one atlas
/// tile; it carries a single `Atlas`-typed property named "Atlas".
pub const ATLAS_RENDERER_UUID: u128 = 0xc85d40c6_0b66_44ef_8361_061547fd8125;

/// Identifier of the built-in zero-property marker schema.
pub const SERIALIZE_UUID: u128 = 0x8d4db834_82c3_4c27_b49c_7c32c638e1ef;

/// The canonical text form of an identifier: the hyphenated lower-case
/// rendering that `uuid::Uuid`'s `Display` produces.
pub uninterp spec fn id_text(n: u128) -> Seq<char>;

/// The identifier a text denotes, if any: what `uuid::Uuid::parse_str`
/// accepts (hyphenated, simple, urn or braced hexadecimal forms).
pub uninterp spec fn parsed_id(s: Seq<char>) -> Option<u128>;

/// True of characters that can appear in the canonical text form of an
/// identifier: lower-case hexadecimal digits and the hyphen.
pub open spec fn is_id_char(c: char) -> bool {
    ('0' <= c && c <= '9') || ('a' <= c && c <= 'f') || c == '-'
}

/// Relies on uuid::Uuid::from_u128 and Display (via ToString): the
/// hyphenated lower-case form, 36 characters of hexadecimal digits and
/// hyphens, determined by the value alone; uuid::Uuid::parse_str accepts it
/// and uuid::Uuid::as_u128 undoes from_u128, so parsing the text yields the
/// value back.
#[verifier::external_body]
pub(crate) fn format_id(n: u128) -> (r: String)
    ensures
        r@ == id_text(n),
        r@.len() == 36,
        forall|i: int| 0 <= i < r@.len() ==> is_id_char(#[trigger] r@[i]),
        parsed_id(r@) == Some(n),
{
    uuid::Uuid::from_u128(n).to_string()
}

/// Relies on uuid::Uuid::parse_str and uuid::Uuid::as_u128: whether a text
/// denotes an identifier, and which, depends on the characters alone.
#[verifier::external_body]
pub(crate) fn parse_id(s: &str) -> (r: Option<u128>)
    ensures
        r == parsed_id(s@),
{
    match uuid::Uuid::parse_str(s) {
        Ok(u) => Some(u.as_u128()),
        Err(_) => None,
    }
}

/// Relies on uuid::Uuid::new_v4: a freshly drawn random identifier.
/// Nothing can be promised of a random value.
#[verifier::external_body]
pub(crate) fn fresh_id() -> u128 {
    uuid::Uuid::new_v4().as_u128()
}

} // verus!
