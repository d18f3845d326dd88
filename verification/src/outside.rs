//! The few places where the library leans on code it does not verify: UTF-8
//! decoding from std, random identifiers from `uuid`, and the base64 decoding
//! of the fixed bootstrap payload. Each wrapper's contract states no more
//! than the callee's documentation promises.

use base64::Engine;
use vstd::prelude::*;
use vstd::utf8::{decode_utf8, valid_utf8};

use crate::packet::UuidBits;

verus! {

/// What the standard base64 alphabet decodes a given text to: a function of
/// the input alone, so the result only gets a name here.
pub uninterp spec fn base64_decoded(s: Seq<char>) -> Seq<u8>;

/// Whether the standard base64 alphabet accepts a given text: decoding is
/// pure validation of the input, so success too depends on the text alone.
pub uninterp spec fn base64_ok(s: Seq<char>) -> bool;

/// Relies on core::str::from_utf8: it succeeds exactly on valid UTF-8 input
/// and yields the string that those bytes encode.
#[verifier::external_body]
pub(crate) fn utf8_to_string(bytes: &[u8]) -> (r: Option<String>)
    ensures
        r is Some <==> valid_utf8(bytes@),
        r matches Some(s) ==> s@ == decode_utf8(bytes@),
{
    match core::str::from_utf8(bytes) {
        Ok(s) => Some(s.to_string()),
        Err(_) => None,
    }
}

/// Relies on uuid::Uuid::new_v4 (with as_u64_pair converting the result):
/// a random identifier whose version nibble is 4 and whose variant bits are
/// the RFC 4122 pattern; nothing more is promised of a random value.
#[verifier::external_body]
pub(crate) fn fresh_uuid() -> (r: UuidBits)
    ensures
        (r.msb >> 12) & 0xF == 4,
        r.lsb >> 62 == 2,
{
    let (msb, lsb) = uuid::Uuid::new_v4().as_u64_pair();
    UuidBits { msb, lsb }
}

/// Relies on base64's standard-alphabet engine: decoding is deterministic in
/// the input text, succeeding exactly on text the alphabet accepts; a
/// rejected input yields None.
#[verifier::external_body]
pub(crate) fn decode_base64(text: &str) -> (r: Option<Vec<u8>>)
    ensures
        r is Some <==> base64_ok(text@),
        r matches Some(v) ==> v@ == base64_decoded(text@),
{
    base64::engine::general_purpose::STANDARD.decode(text).ok()
}

} // verus!
