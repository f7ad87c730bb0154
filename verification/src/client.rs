//! The protocol client core: the pure halves of send and receive, and the
//! watch loop's per-poll decision. The record store calls themselves live in
//! the embedding application.

use crate::errors::ProtocolError;
use crate::records::{build_records, fields_view, opt_view, publish_post, MAX_MSGS_PAYLOAD_B64};
use crate::types::{CompactMessage, PkarrMessage, RecvOutput, ResolvedBatch, WatchEvent};
use vstd::prelude::*;

verus! {

/// The verified core of a protocol client; the embedding application holds
/// the record store handle and the key backend.
pub struct GhostClient {
    pub max_payload: usize,
}

impl GhostClient {
    pub fn new() -> (r: GhostClient)
        ensures
            r.max_payload == MAX_MSGS_PAYLOAD_B64,
    {
        GhostClient { max_payload: MAX_MSGS_PAYLOAD_B64 }
    }

    /// The acknowledgement to publish after seeing the peer's state: the
    /// peer's latest timestamp, or zero for an empty state.
    pub fn ack_from(&self, batch: &Option<ResolvedBatch>) -> (r: i64)
        ensures
            match batch {
                Some(b) => r == b.latest_timestamp,
                None => r == 0,
            },
    {
        match batch {
            Some(b) => b.latest_timestamp,
            None => 0,
        }
    }

    /// The publish-side half of a send: the record set and kept count for an
    /// outgoing batch.
    pub fn prepare_send(
        &self,
        messages: &Vec<CompactMessage>,
        enc_key: &[u8],
        ack_timestamp: i64,
        nick: Option<&String>,
    ) -> (r: Result<(Vec<(String, String)>, usize), ProtocolError>)
        ensures
            r is Ok <==> enc_key@.len() == 32,
            match r {
                Ok(p) => exists|srt: Seq<CompactMessage>|
                    #[trigger] publish_post(
                        srt,
                        messages@,
                        fields_view(p.0@),
                        p.1 as int,
                        enc_key@,
                        ack_timestamp as int,
                        opt_view(nick),
                        None,
                    ),
                Err(e) => e == ProtocolError::InvalidKeyLength,
            },
    {
        build_records(messages, enc_key, ack_timestamp, nick, None)
    }

    /// The read-side half of a receive: a typed output for what resolution
    /// returned, an all-zero view for the normal empty state.
    pub fn recv_output(&self, batch: Option<ResolvedBatch>) -> (r: RecvOutput)
        ensures
            match batch {
                Some(b) => r.messages@ == b.messages@ && r.peer_ack == b.peer_ack && r.latest_ts
                    == b.latest_timestamp && r.message_count == b.message_count,
                None => r.messages@.len() == 0 && r.peer_ack == 0 && r.latest_ts == 0
                    && r.message_count == 0,
            },
    {
        match batch {
            Some(b) => RecvOutput {
                messages: b.messages,
                peer_ack: b.peer_ack,
                latest_ts: b.latest_timestamp,
                message_count: b.message_count,
            },
            None => RecvOutput { messages: Vec::new(), peer_ack: 0, latest_ts: 0, message_count: 0 },
        }
    }
}

impl Default for GhostClient {
    fn default() -> (r: Self)
        ensures
            r.max_payload == MAX_MSGS_PAYLOAD_B64,
    {
        GhostClient::new()
    }
}

/// The messages of one poll that are newer than the high-water mark, in
/// batch order.
pub open spec fn fresh_msgs(ms: Seq<PkarrMessage>, last: i64) -> Seq<PkarrMessage>
    decreases ms.len(),
{
    if ms.len() == 0 {
        Seq::empty()
    } else {
        fresh_msgs(ms.drop_last(), last) + if ms.last().timestamp > last {
            seq![ms.last()]
        } else {
            Seq::empty()
        }
    }
}

/// The high-water mark after one poll: raised to the newest timestamp seen.
pub open spec fn mark_after(ms: Seq<PkarrMessage>, last: i64) -> int
    decreases ms.len(),
{
    if ms.len() == 0 {
        last as int
    } else {
        let m = mark_after(ms.drop_last(), last);
        if ms.last().timestamp > m {
            ms.last().timestamp as int
        } else {
            m
        }
    }
}

/// One poll step of the watch loop: one event per message above the
/// high-water mark, in order, and the new mark. The caller publishes an
/// acknowledgement only when events came back.
pub fn watch_step(messages: &Vec<PkarrMessage>, last_seen: i64) -> (r: (Vec<WatchEvent>, i64))
    ensures
        r.0@.len() == fresh_msgs(messages@, last_seen).len(),
        forall|k: int|
            0 <= k < r.0@.len() ==> {
                let m = fresh_msgs(messages@, last_seen)[k];
                &&& (#[trigger] r.0@[k]).text@ == m.text@
                &&& r.0@[k].timestamp == m.timestamp
                &&& r.0@[k].from@ == "peer"@
                &&& (match m.nick {
                    Some(nv) => r.0@[k].nick matches Some(s) && s@ == nv@,
                    None => r.0@[k].nick is None,
                })
            },
        r.1 as int == mark_after(messages@, last_seen),
        r.1 >= last_seen,
{
    let n = messages.len();
    let mut events: Vec<WatchEvent> = Vec::new();
    let mut mark = last_seen;
    let mut i: usize = 0;
    while i < n
        invariant
            i <= n,
            n == messages@.len(),
            mark as int == mark_after(messages@.take(i as int), last_seen),
            mark >= last_seen,
            events@.len() == fresh_msgs(messages@.take(i as int), last_seen).len(),
            forall|k: int|
                0 <= k < events@.len() ==> {
                    let m = fresh_msgs(messages@.take(i as int), last_seen)[k];
                    &&& (#[trigger] events@[k]).text@ == m.text@
                    &&& events@[k].timestamp == m.timestamp
                    &&& events@[k].from@ == "peer"@
                    &&& (match m.nick {
                        Some(nv) => events@[k].nick matches Some(s) && s@ == nv@,
                        None => events@[k].nick is None,
                    })
                },
        decreases n - i,
    {
        proof {
            assert(messages@.take(i as int + 1).drop_last() =~= messages@.take(i as int));
            assert(messages@.take(i as int + 1).last() == messages@[i as int]);
        }
        let m = &messages[i];
        if m.timestamp > last_seen {
            let nick = match &m.nick {
                Some(s) => Some(s.clone()),
                None => None,
            };
            let from = String::from_str("peer");
            events.push(
                WatchEvent { from, text: m.text.clone(), timestamp: m.timestamp, nick },
            );
            if m.timestamp > mark {
                mark = m.timestamp;
            }
            proof {
                let pre = fresh_msgs(messages@.take(i as int), last_seen);
                let post = fresh_msgs(messages@.take(i as int + 1), last_seen);
                assert(post =~= pre + seq![messages@[i as int]]);
                assert(post[pre.len() as int] == messages@[i as int]);
            }
        } else {
            proof {
                assert(fresh_msgs(messages@.take(i as int + 1), last_seen) =~= fresh_msgs(
                    messages@.take(i as int),
                    last_seen,
                ));
            }
        }
        i = i + 1;
    }
    proof {
        assert(messages@.take(n as int) =~= messages@);
    }
    (events, mark)
}

} // verus!
