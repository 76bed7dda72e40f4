//! Entity identifiers: 128-bit values, printed and parsed through the uuid
//! crate's hyphenated text form.

use vstd::prelude::*;

verus! {

/// The 36-character hyphenated lowercase text uuid prints for `id`; a
/// function of `id` alone.
pub uninterp spec fn uuid_text_of(id: u128) -> Seq<char>;

/// The identifier uuid reads from text, or nothing when the text is not a
/// UUID; a function of the text alone.
pub uninterp spec fn uuid_parse(s: Seq<char>) -> Option<u128>;

/// Characters of the hyphenated identifier form: lowercase hex and hyphens;
/// none of them is a separator of the flat-file format.
pub open spec fn is_uuid_char(c: char) -> bool {
    (48 <= c as u32 && c as u32 <= 57)  // '0' ..= '9'
    || (97 <= c as u32 && c as u32 <= 102)  // 'a' ..= 'f'
    || c == '-'
}

/// Relies on `uuid::Uuid::new_v4`: a randomly drawn identifier; nothing can
/// be promised of it.
#[verifier::external_body]
pub(crate) fn fresh_id() -> (r: u128) {
    uuid::Uuid::new_v4().as_u128()
}

/// Relies on `uuid::Uuid::from_u128` and the `Hyphenated` formatter: 36
/// characters of lowercase hex and hyphens, a function of `id` alone, which
/// `Uuid::parse_str` reads back to `id`.
#[verifier::external_body]
pub(crate) fn id_text(id: u128) -> (r: String)
    ensures
        r@ == uuid_text_of(id),
        uuid_parse(r@) == Some(id),
        r@.len() == 36,
        forall|i: int| 0 <= i < r@.len() ==> is_uuid_char(#[trigger] r@[i]),
{
    uuid::Uuid::from_u128(id).hyphenated().to_string()
}

/// Relies on `uuid::Uuid::parse_str`: the result is a function of the text
/// alone.
#[verifier::external_body]
pub(crate) fn id_parse(s: &str) -> (r: Option<u128>)
    ensures
        r == uuid_parse(s@),
{
    match uuid::Uuid::parse_str(s) {
        Ok(u) => Some(u.as_u128()),
        Err(_) => None,
    }
}

} // verus!
