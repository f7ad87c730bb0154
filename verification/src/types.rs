//! Protocol data types and their mathematical views.

use vstd::prelude::*;

verus! {

/// One message on the wire: timestamp in milliseconds and text.
pub struct CompactMessage {
    pub t: i64,
    pub m: String,
}

/// The mathematical content of a message: timestamp and character sequence.
pub open spec fn msg_view(m: CompactMessage) -> (int, Seq<char>) {
    (m.t as int, m.m@)
}

/// The contents of a batch, message by message.
pub open spec fn batch_view(s: Seq<CompactMessage>) -> Seq<(int, Seq<char>)> {
    s.map_values(|m: CompactMessage| msg_view(m))
}

impl CompactMessage {
    /// A copy with the same content.
    pub fn duplicate(&self) -> (r: CompactMessage)
        ensures
            msg_view(r) == msg_view(*self),
    {
        CompactMessage { t: self.t, m: self.m.clone() }
    }
}

/// A message as reconstructed by the resolver, carrying the sender's
/// display name when one was present and readable.
pub struct PkarrMessage {
    pub text: String,
    pub timestamp: i64,
    pub nick: Option<String>,
}

/// The read-side state reconstructed from one resolved record set.
pub struct ResolvedBatch {
    pub messages: Vec<PkarrMessage>,
    pub latest_timestamp: i64,
    pub peer_ack: i64,
    pub raw_record_names: Vec<String>,
    pub encrypted_payload_length: usize,
    pub packet_timestamp: i64,
    pub message_count: usize,
    pub call_signal: Option<String>,
}

/// A freshly minted identity: seed and shared key, both URL-safe base-64.
/// The public address for the seed comes from the application's key backend.
pub struct IdentityOutput {
    pub seed: String,
    pub shared_key: String,
}

/// An invite URL together with the address it points at.
pub struct InviteOutput {
    pub invite_url: String,
    pub pubkey: String,
}

/// The outcome of consuming an invite: the peer's address and shared key
/// from the URL, and a fresh local seed minted for the recipient.
pub struct ParsedInvite {
    pub peer_pubkey: String,
    pub shared_key: String,
    pub my_seed: String,
}

/// The outcome of a send: the timestamp used and how many messages the
/// fitting codec kept.
pub struct SendOutput {
    pub ok: bool,
    pub timestamp: i64,
    pub messages_kept: usize,
}

/// The outcome of a receive poll.
pub struct RecvOutput {
    pub messages: Vec<PkarrMessage>,
    pub peer_ack: i64,
    pub latest_ts: i64,
    pub message_count: usize,
}

/// One event emitted by the watch loop for each newly seen message.
pub struct WatchEvent {
    pub from: String,
    pub text: String,
    pub timestamp: i64,
    pub nick: Option<String>,
}

/// A caller-visible failure, as front ends print it.
pub struct ErrorOutput {
    pub error: String,
}

} // verus!
