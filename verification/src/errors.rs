//! Error kinds surfaced by the protocol core.

use vstd::prelude::*;

verus! {

/// Every failure a protocol call can report. Sub-field failures during
/// resolution are recovered locally and never surface as one of these.
#[derive(Debug)]
pub enum ProtocolError {
    /// A symmetric key was not exactly 32 bytes long.
    InvalidKeyLength,
    /// Base-64 or UTF-8 decoding failed, or an envelope was too short.
    DecodeError,
    /// An authentication tag did not verify: wrong key or tampered data.
    AuthenticationFailure,
    /// A message batch could not be serialized or parsed.
    SerializationError,
    /// A public address failed format validation.
    InvalidAddress,
    /// A decoded seed was not exactly 32 bytes long.
    InvalidSeedLength,
    /// An invite URL did not have the mandatory scheme and single separator.
    InvalidInviteFormat,
    /// The record store reported a failure; the message is passed through.
    StoreError(String),
}

/// The description each error kind carries.
pub open spec fn describe_spec(e: &ProtocolError) -> Seq<char> {
    match e {
        ProtocolError::InvalidKeyLength => "Invalid key length: expected 32 bytes"@,
        ProtocolError::DecodeError => "Decode failed: invalid encoding"@,
        ProtocolError::AuthenticationFailure => "Decryption failed: wrong key or corrupted data"@,
        ProtocolError::SerializationError => "Message batch serialization failed"@,
        ProtocolError::InvalidAddress => "Invalid public address"@,
        ProtocolError::InvalidSeedLength => "Invalid seed length: expected 32 bytes"@,
        ProtocolError::InvalidInviteFormat => "Invalid invite URL"@,
        ProtocolError::StoreError(_) => "Record store error"@,
    }
}

impl ProtocolError {
    /// A human-readable description, surfaced verbatim by front ends.
    pub fn describe(&self) -> (r: String)
        ensures
            r@ == describe_spec(self),
            r@.len() > 0,
    {
        let s: &str = match self {
            ProtocolError::InvalidKeyLength => "Invalid key length: expected 32 bytes",
            ProtocolError::DecodeError => "Decode failed: invalid encoding",
            ProtocolError::AuthenticationFailure => "Decryption failed: wrong key or corrupted data",
            ProtocolError::SerializationError => "Message batch serialization failed",
            ProtocolError::InvalidAddress => "Invalid public address",
            ProtocolError::InvalidSeedLength => "Invalid seed length: expected 32 bytes",
            ProtocolError::InvalidInviteFormat => "Invalid invite URL",
            ProtocolError::StoreError(_) => "Record store error",
        };
        proof {
            reveal_strlit("Invalid key length: expected 32 bytes");
            reveal_strlit("Decode failed: invalid encoding");
            reveal_strlit("Decryption failed: wrong key or corrupted data");
            reveal_strlit("Message batch serialization failed");
            reveal_strlit("Invalid public address");
            reveal_strlit("Invalid seed length: expected 32 bytes");
            reveal_strlit("Invalid invite URL");
            reveal_strlit("Record store error");
        }
        s.to_owned()
    }
}

} // verus!
