//! Trusted boundary to the base64 crate: the standard padded engine for
//! envelopes and the URL-safe unpadded engine for seeds and keys.

use base64::Engine;
use vstd::prelude::*;

verus! {

/// What base64's STANDARD engine emits for a byte string.
pub uninterp spec fn b64_of(bytes: Seq<u8>) -> Seq<char>;

/// What base64's STANDARD engine decodes a text to, `None` on rejection.
pub uninterp spec fn b64_parse(text: Seq<char>) -> Option<Seq<u8>>;

/// What base64's URL_SAFE_NO_PAD engine emits for a byte string.
pub uninterp spec fn b64u_of(bytes: Seq<u8>) -> Seq<char>;

/// What base64's URL_SAFE_NO_PAD engine decodes a text to, `None` on rejection.
pub uninterp spec fn b64u_parse(text: Seq<char>) -> Option<Seq<u8>>;

/// Relies on base64's `Engine::encode` with the STANDARD engine: the output
/// is deterministic, four characters per three-byte group with padding, and
/// `Engine::decode` inverts it.
#[verifier::external_body]
pub(crate) fn b64_encode(bytes: &Vec<u8>) -> (r: String)
    ensures
        r@ == b64_of(bytes@),
        b64_parse(r@) == Some(bytes@),
        r@.len() == ((bytes@.len() + 2) / 3) * 4,
{
    base64::engine::general_purpose::STANDARD.encode(bytes)
}

/// Relies on base64's `Engine::decode` with the STANDARD engine: a
/// deterministic partial inverse of `Engine::encode`.
#[verifier::external_body]
pub(crate) fn b64_decode(text: &str) -> (r: Option<Vec<u8>>)
    ensures
        match r {
            Some(v) => b64_parse(text@) == Some(v@),
            None => b64_parse(text@) is None,
        },
{
    base64::engine::general_purpose::STANDARD.decode(text).ok()
}

/// Relies on base64's `Engine::encode` with the URL_SAFE_NO_PAD engine:
/// deterministic, inverted by `Engine::decode` on the same engine.
#[verifier::external_body]
pub(crate) fn b64u_encode(bytes: &Vec<u8>) -> (r: String)
    ensures
        r@ == b64u_of(bytes@),
        b64u_parse(r@) == Some(bytes@),
{
    base64::engine::general_purpose::URL_SAFE_NO_PAD.encode(bytes)
}

/// Relies on base64's `Engine::decode` with the URL_SAFE_NO_PAD engine: a
/// deterministic partial inverse of `Engine::encode` on the same engine.
#[verifier::external_body]
pub(crate) fn b64u_decode(text: &str) -> (r: Option<Vec<u8>>)
    ensures
        match r {
            Some(v) => b64u_parse(text@) == Some(v@),
            None => b64u_parse(text@) is None,
        },
{
    base64::engine::general_purpose::URL_SAFE_NO_PAD.decode(text).ok()
}

} // verus!
