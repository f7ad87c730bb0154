//! Trusted boundary to the crypto_secretbox crate (XSalsa20Poly1305) and to
//! the rand crate's system-seeded generator.

use crypto_secretbox::aead::{Aead, KeyInit};
use crypto_secretbox::XSalsa20Poly1305;
use rand::Rng;
use vstd::prelude::*;

verus! {

/// What XSalsa20Poly1305 sealing produces: a function of key, nonce and
/// plaintext alone.
pub uninterp spec fn seal_bytes(key: Seq<u8>, nonce: Seq<u8>, plain: Seq<u8>) -> Seq<u8>;

/// What XSalsa20Poly1305 opening produces: `None` when the tag does not
/// verify, otherwise the recovered plaintext.
pub uninterp spec fn open_bytes(key: Seq<u8>, nonce: Seq<u8>, cipher: Seq<u8>) -> Option<Seq<u8>>;

/// Relies on crypto_secretbox's `Aead::encrypt` for XSalsa20Poly1305: sealing
/// never fails with empty associated data, prepends a 16-byte tag to the
/// stream-encrypted text, and `Aead::decrypt` under the same key and nonce
/// recovers the plaintext.
#[verifier::external_body]
pub(crate) fn aead_seal(key: &[u8], nonce: &[u8], plain: &Vec<u8>) -> (r: Vec<u8>)
    requires
        key@.len() == 32,
        nonce@.len() == 24,
    ensures
        r@ == seal_bytes(key@, nonce@, plain@),
        r@.len() == plain@.len() + 16,
        open_bytes(key@, nonce@, r@) == Some(plain@),
{
    let key_arr: &[u8; 32] = key.try_into().unwrap();
    let nonce_arr: &[u8; 24] = nonce.try_into().unwrap();
    let cipher = XSalsa20Poly1305::new(key_arr.into());
    cipher.encrypt(nonce_arr.into(), plain.as_slice()).unwrap()
}

/// Relies on crypto_secretbox's `Aead::decrypt` for XSalsa20Poly1305: a
/// deterministic function of key, nonce and ciphertext that fails exactly
/// when the authentication tag does not verify; on success the ciphertext is
/// the sealing of the recovered plaintext (the stream cipher is an
/// involution and the verified tag is the one sealing recomputes).
#[verifier::external_body]
pub(crate) fn aead_open(key: &[u8], nonce: &[u8], cipher_text: &[u8]) -> (r: Option<Vec<u8>>)
    requires
        key@.len() == 32,
        nonce@.len() == 24,
    ensures
        match r {
            Some(p) => open_bytes(key@, nonce@, cipher_text@) == Some(p@) && cipher_text@
                == seal_bytes(key@, nonce@, p@),
            None => open_bytes(key@, nonce@, cipher_text@) is None,
        },
{
    let key_arr: &[u8; 32] = key.try_into().unwrap();
    let nonce_arr: &[u8; 24] = nonce.try_into().unwrap();
    let cipher = XSalsa20Poly1305::new(key_arr.into());
    cipher.decrypt(nonce_arr.into(), cipher_text).ok()
}

/// Relies on rand's `Rng::fill_bytes` on the system-seeded generator
/// returned by `rand::rng`: fills the whole buffer; nothing is promised of
/// the values.
#[verifier::external_body]
pub(crate) fn random_bytes(n: usize) -> (r: Vec<u8>)
    ensures
        r@.len() == n,
{
    let mut buf = vec![0u8; n];
    rand::rng().fill_bytes(&mut buf);
    buf
}

} // verus!
