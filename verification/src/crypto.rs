//! Authenticated encryption envelope: `nonce(24) || tag+ciphertext`, base-64
//! encoded, together with the random key generator and the URL-safe codec for
//! opaque byte blobs.

use crate::aead::{aead_open, aead_seal, open_bytes, random_bytes, seal_bytes};
use crate::b64::{b64_decode, b64_encode, b64_parse, b64u_decode, b64u_encode, b64u_of, b64u_parse};
use crate::errors::ProtocolError;
use crate::strutil::string_from_utf8;
use vstd::prelude::*;
use vstd::utf8::{decode_utf8, encode_utf8, encode_utf8_decode_utf8, encode_utf8_valid_utf8, valid_utf8};

verus! {

/// Length in characters of an envelope carrying `plain_len` plaintext bytes:
/// the padded base-64 encoding of nonce (24), tag (16) and text.
pub open spec fn envelope_len(plain_len: nat) -> nat {
    ((plain_len + 40 + 2) / 3) * 4
}

/// What decrypting an envelope down to plaintext bytes yields: the stages are
/// base-64 decoding, a minimum-length check (nonce plus at least the tag and
/// one byte), and tag verification.
pub open spec fn open_envelope(key: Seq<u8>, envelope: Seq<char>) -> Result<Seq<u8>, ProtocolError> {
    if key.len() != 32 {
        Err(ProtocolError::InvalidKeyLength)
    } else {
        match b64_parse(envelope) {
            None => Err(ProtocolError::DecodeError),
            Some(c) => if c.len() < 25 {
                Err(ProtocolError::DecodeError)
            } else {
                match open_bytes(key, c.subrange(0, 24), c.subrange(24, c.len() as int)) {
                    None => Err(ProtocolError::AuthenticationFailure),
                    Some(p) => Ok(p),
                }
            },
        }
    }
}

/// What decrypting an envelope to text yields: `open_envelope` followed by
/// UTF-8 decoding.
pub open spec fn decrypt_spec(key: Seq<u8>, envelope: Seq<char>) -> Result<Seq<char>, ProtocolError> {
    match open_envelope(key, envelope) {
        Err(e) => Err(e),
        Ok(p) => if valid_utf8(p) {
            Ok(decode_utf8(p))
        } else {
            Err(ProtocolError::DecodeError)
        },
    }
}

/// The envelope is a genuine sealing of these plaintext bytes: it decodes to
/// a nonce followed by exactly what sealing the bytes under that nonce
/// produces. A successful decryption never returns anything else.
pub open spec fn is_sealed(key: Seq<u8>, envelope: Seq<char>, plain: Seq<u8>) -> bool {
    &&& b64_parse(envelope) matches Some(c)
    &&& b64_parse(envelope)->Some_0.len() >= 25
    &&& ({
        let c = b64_parse(envelope)->Some_0;
        c.subrange(24, c.len() as int) == seal_bytes(key, c.subrange(0, 24), plain)
    })
}

/// A fresh random 32-byte symmetric key.
pub fn generate_key() -> (r: Vec<u8>)
    ensures
        r@.len() == 32,
{
    random_bytes(32)
}

/// URL-safe, unpadded base-64 encoding of an opaque byte blob.
pub fn to_base64_url(bytes: &Vec<u8>) -> (r: String)
    ensures
        r@ == b64u_of(bytes@),
        b64u_parse(r@) == Some(bytes@),
{
    b64u_encode(bytes)
}

/// Inverse of [`to_base64_url`]; rejects text the engine does not accept.
pub fn from_base64_url(s: &str) -> (r: Result<Vec<u8>, ProtocolError>)
    ensures
        match r {
            Ok(v) => b64u_parse(s@) == Some(v@),
            Err(e) => b64u_parse(s@) is None && e == ProtocolError::DecodeError,
        },
{
    match b64u_decode(s) {
        Some(v) => Ok(v),
        None => Err(ProtocolError::DecodeError),
    }
}

/// Seals plaintext bytes under a fresh random nonce and encodes the envelope.
/// Succeeds exactly on 32-byte keys; the envelope's length is a function of
/// the plaintext length alone, and opening it with the same key returns the
/// plaintext.
pub(crate) fn encrypt_bytes(plain: &Vec<u8>, key: &[u8]) -> (r: Result<String, ProtocolError>)
    ensures
        r is Ok <==> key@.len() == 32,
        match r {
            Ok(env) => env@.len() == envelope_len(plain@.len()) && open_envelope(key@, env@)
                == Ok::<Seq<u8>, ProtocolError>(plain@) && (b64_parse(env@) matches Some(c)
                && c.len() == plain@.len() + 40),
            Err(e) => e == ProtocolError::InvalidKeyLength,
        },
{
    if key.len() != 32 {
        return Err(ProtocolError::InvalidKeyLength);
    }
    let nonce = random_bytes(24);
    let mut sealed = aead_seal(key, nonce.as_slice(), plain);
    let ghost nonce0 = nonce@;
    let ghost sealed0 = sealed@;
    let mut combined = nonce;
    combined.append(&mut sealed);
    let env = b64_encode(&combined);
    proof {
        assert(combined@.subrange(0, 24) =~= nonce0);
        assert(combined@.subrange(24, combined@.len() as int) =~= sealed0);
    }
    Ok(env)
}

/// Decodes and opens an envelope down to the plaintext bytes, reporting the
/// stage that failed.
pub(crate) fn decrypt_bytes(encoded: &str, key: &[u8]) -> (r: Result<Vec<u8>, ProtocolError>)
    ensures
        match r {
            Ok(p) => open_envelope(key@, encoded@) == Ok::<Seq<u8>, ProtocolError>(p@)
                && is_sealed(key@, encoded@, p@),
            Err(e) => open_envelope(key@, encoded@) == Err::<Seq<u8>, ProtocolError>(e),
        },
{
    if key.len() != 32 {
        return Err(ProtocolError::InvalidKeyLength);
    }
    let combined = match b64_decode(encoded) {
        Some(v) => v,
        None => {
            return Err(ProtocolError::DecodeError);
        },
    };
    if combined.len() < 25 {
        return Err(ProtocolError::DecodeError);
    }
    let nonce = vstd::slice::slice_subrange(combined.as_slice(), 0, 24);
    let cipher_text = vstd::slice::slice_subrange(combined.as_slice(), 24, combined.len());
    match aead_open(key, nonce, cipher_text) {
        Some(p) => Ok(p),
        None => Err(ProtocolError::AuthenticationFailure),
    }
}

/// Authenticated encryption of text under a 32-byte key: fresh random nonce,
/// seal, base-64. The contract carries the round trip: decrypting the
/// returned envelope with the same key yields the plaintext back.
pub fn encrypt(plaintext: &str, key: &[u8]) -> (r: Result<String, ProtocolError>)
    ensures
        r is Ok <==> key@.len() == 32,
        match r {
            Ok(env) => env@.len() == envelope_len(encode_utf8(plaintext@).len()) && decrypt_spec(
                key@,
                env@,
            ) == Ok::<Seq<char>, ProtocolError>(plaintext@) && (b64_parse(env@) matches Some(c)
                && c.len() == encode_utf8(plaintext@).len() + 40),
            Err(e) => e == ProtocolError::InvalidKeyLength,
        },
{
    let bytes = plaintext.as_bytes_vec();
    match encrypt_bytes(&bytes, key) {
        Ok(env) => {
            proof {
                encode_utf8_valid_utf8(plaintext@);
                encode_utf8_decode_utf8(plaintext@);
            }
            Ok(env)
        },
        Err(e) => Err(e),
    }
}

/// Authenticated decryption: the exact inverse stages of [`encrypt`], with
/// the error kind naming the stage that failed.
pub fn decrypt(encoded: &str, key: &[u8]) -> (r: Result<String, ProtocolError>)
    ensures
        match r {
            Ok(s) => decrypt_spec(key@, encoded@) == Ok::<Seq<char>, ProtocolError>(s@)
                && is_sealed(key@, encoded@, encode_utf8(s@)),
            Err(e) => decrypt_spec(key@, encoded@) == Err::<Seq<char>, ProtocolError>(e),
        },
{
    let bytes = match decrypt_bytes(encoded, key) {
        Ok(b) => b,
        Err(e) => {
            return Err(e);
        },
    };
    match string_from_utf8(bytes) {
        Some(s) => {
            proof {
                vstd::utf8::decode_utf8_encode_utf8(bytes@);
            }
            Ok(s)
        },
        None => Err(ProtocolError::DecodeError),
    }
}

} // verus!

verus! {

/// A fresh symmetric key, URL-safe encoded, ready to hand to a peer.
pub fn generate_enc_key() -> (r: String)
    ensures
        b64u_parse(r@) matches Some(k) && k.len() == 32,
{
    let key = generate_key();
    to_base64_url(&key)
}

/// Encrypts text under a URL-safe encoded key: succeeds exactly when the key
/// text decodes to 32 bytes.
pub fn encrypt_text(plaintext: &str, key_b64: &str) -> (r: Result<String, ProtocolError>)
    ensures
        r is Ok <==> (b64u_parse(key_b64@) matches Some(k) && k.len() == 32),
        match r {
            Ok(env) => b64u_parse(key_b64@) matches Some(k) && env@.len() == envelope_len(
                encode_utf8(plaintext@).len(),
            ) && decrypt_spec(k, env@) == Ok::<Seq<char>, ProtocolError>(plaintext@),
            Err(e) => if b64u_parse(key_b64@) is None {
                e == ProtocolError::DecodeError
            } else {
                e == ProtocolError::InvalidKeyLength
            },
        },
{
    let key = match from_base64_url(key_b64) {
        Ok(k) => k,
        Err(e) => {
            return Err(e);
        },
    };
    encrypt(plaintext, key.as_slice())
}

/// Decrypts an envelope under a URL-safe encoded key: the result mirrors
/// [`decrypt_spec`] under the decoded key, and a key text the engine rejects
/// is a decode error.
pub fn decrypt_text(encoded: &str, key_b64: &str) -> (r: Result<String, ProtocolError>)
    ensures
        match r {
            Ok(s) => b64u_parse(key_b64@) matches Some(k) && decrypt_spec(k, encoded@) == Ok::<
                Seq<char>,
                ProtocolError,
            >(s@),
            Err(e) => if b64u_parse(key_b64@) is None {
                e == ProtocolError::DecodeError
            } else {
                decrypt_spec(b64u_parse(key_b64@)->Some_0, encoded@) == Err::<
                    Seq<char>,
                    ProtocolError,
                >(e)
            },
        },
{
    let key = match from_base64_url(key_b64) {
        Ok(k) => k,
        Err(e) => {
            return Err(e);
        },
    };
    decrypt(encoded, key.as_slice())
}

} // verus!
