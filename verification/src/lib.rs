//! Ephemeral end-to-end-encrypted messaging protocol over a public-key
//! addressable, size-bounded record store.
//!
//! The store itself (publish/resolve of signed record sets) and the
//! public-key backend that derives addresses from seeds are external
//! collaborators; this crate holds the protocol core: the authenticated
//! encryption envelope, the batch fitting codec, the record-set builder and
//! resolver, and the identity/invite codec.

mod aead;
mod b64;
pub mod client;
pub mod crypto;
pub mod errors;
pub mod fitting;
pub mod identity;
pub mod json;
pub mod nums;
pub mod records;
mod strutil;
pub mod types;

pub use client::{watch_step, GhostClient};
pub use crypto::{decrypt, decrypt_text, encrypt, encrypt_text, from_base64_url, generate_enc_key, generate_key, to_base64_url};
pub use errors::ProtocolError;
pub use fitting::{sort_batch, trim_to_fit};
pub use identity::{create_keypair, generate_invite, keypair_from_seed, new_identity, parse_invite, Keypair};
pub use records::{build_records, first_label_of, resolve_messages, resolve_records, validate_address};
pub use types::{
    CompactMessage, ErrorOutput, IdentityOutput, InviteOutput, ParsedInvite, PkarrMessage,
    RecvOutput, ResolvedBatch, SendOutput, WatchEvent,
};
