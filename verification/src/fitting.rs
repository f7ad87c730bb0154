//! Batch fitting codec: sort ascending by timestamp, then greedily drop the
//! oldest messages until the encrypted envelope fits the payload ceiling,
//! with a single-message truncation fallback as the last resort.

use crate::crypto::{encrypt_bytes, envelope_len, open_envelope};
use crate::errors::ProtocolError;
use crate::json::{json_of_batch, serialize_batch};
use crate::types::{batch_view, msg_view, CompactMessage};
use vstd::multiset::Multiset;
use vstd::prelude::*;

verus! {

broadcast use vstd::seq_lib::group_to_multiset_ensures;

/// Timestamps never decrease along the sequence.
pub open spec fn sorted_by_ts(s: Seq<CompactMessage>) -> bool {
    forall|i: int, j: int| #![trigger s[i], s[j]] 0 <= i <= j < s.len() ==> s[i].t <= s[j].t
}

/// A copy of the batch, sorted ascending by timestamp: same contents as a
/// multiset, non-decreasing timestamps.
pub fn sort_batch(input: &Vec<CompactMessage>) -> (r: Vec<CompactMessage>)
    ensures
        sorted_by_ts(r@),
        batch_view(r@).to_multiset() == batch_view(input@).to_multiset(),
        r@.len() == input@.len(),
{
    let n = input.len();
    let mut rest: Vec<CompactMessage> = Vec::new();
    let mut idx: usize = 0;
    while idx < n
        invariant
            idx <= n,
            n == input@.len(),
            batch_view(rest@) == batch_view(input@.take(idx as int)),
            rest@.len() == idx,
        decreases n - idx,
    {
        let ghost old_rest = rest@;
        rest.push(input[idx].duplicate());
        proof {
            let lhs = batch_view(rest@);
            let rhs = batch_view(input@.take(idx as int + 1));
            assert(lhs.len() == rhs.len());
            assert forall|k: int| 0 <= k < lhs.len() implies lhs[k] == rhs[k] by {
                assert(lhs[k] == msg_view(rest@[k]));
                assert(rhs[k] == msg_view(input@.take(idx as int + 1)[k]));
                if k < idx {
                    assert(rest@[k] == old_rest[k]);
                    assert(batch_view(old_rest)[k] == msg_view(old_rest[k]));
                    assert(batch_view(input@.take(idx as int))[k] == msg_view(
                        input@.take(idx as int)[k],
                    ));
                    assert(input@.take(idx as int)[k] == input@[k]);
                    assert(input@.take(idx as int + 1)[k] == input@[k]);
                } else {
                    assert(input@.take(idx as int + 1)[k] == input@[idx as int]);
                }
            }
            assert(lhs =~= rhs);
        }
        idx = idx + 1;
    }
    proof {
        assert(input@.take(n as int) =~= input@);
    }
    let ghost target = batch_view(input@).to_multiset();
    let mut out: Vec<CompactMessage> = Vec::new();
    while rest.len() > 0
        invariant
            batch_view(out@).to_multiset().add(batch_view(rest@).to_multiset()) == target,
            target == batch_view(input@).to_multiset(),
            sorted_by_ts(out@),
            forall|i: int, j: int|
                #![trigger out@[i], rest@[j]]
                0 <= i < out@.len() && 0 <= j < rest@.len() ==> out@[i].t <= rest@[j].t,
            out@.len() + rest@.len() == input@.len(),
        decreases rest@.len(),
    {
        let mut min_i: usize = 0;
        let mut k: usize = 1;
        while k < rest.len()
            invariant
                rest@.len() > 0,
                min_i < k <= rest@.len(),
                forall|j: int| 0 <= j < k ==> rest@[min_i as int].t <= (#[trigger] rest@[j]).t,
            decreases rest@.len() - k,
        {
            if rest[k].t < rest[min_i].t {
                min_i = k;
            }
            k = k + 1;
        }
        let ghost old_out = out@;
        let ghost old_rest = rest@;
        let m = rest.remove(min_i);
        out.push(m);
        proof {
            let a = batch_view(old_out);
            let b = batch_view(old_rest);
            let v = msg_view(old_rest[min_i as int]);
            assert(batch_view(out@) =~= a.push(v));
            assert(batch_view(rest@) =~= b.remove(min_i as int));
            assert(b[min_i as int] == v);
            assert(b.contains(v));
            assert(b.to_multiset().count(v) > 0);
            assert(batch_view(out@).to_multiset() =~= a.to_multiset().insert(v));
            assert(batch_view(rest@).to_multiset() =~= b.to_multiset().remove(v));
            assert(batch_view(out@).to_multiset().add(batch_view(rest@).to_multiset())
                =~= a.to_multiset().add(b.to_multiset()));
            assert forall|i: int, j: int|
                #![trigger out@[i], rest@[j]]
                0 <= i < out@.len() && 0 <= j < rest@.len() implies out@[i].t <= rest@[j].t by {
                let rj = if j < min_i as int {
                    j
                } else {
                    j + 1
                };
                assert(rest@[j] == old_rest[rj]);
                if i < out@.len() - 1 {
                    assert(out@[i] == old_out[i]);
                } else {
                    assert(out@[i] == old_rest[min_i as int]);
                }
            }
            assert(sorted_by_ts(out@)) by {
                assert forall|i: int, j: int|
                    #![trigger out@[i], out@[j]]
                    0 <= i <= j < out@.len() implies out@[i].t <= out@[j].t by {
                    if j < out@.len() - 1 {
                        assert(out@[i] == old_out[i] && out@[j] == old_out[j]);
                    } else if i < j {
                        assert(out@[i] == old_out[i]);
                        assert(out@[j] == old_rest[min_i as int]);
                    }
                }
            }
        }
    }
    proof {
        assert(batch_view(rest@).to_multiset() =~= Multiset::<(int, Seq<char>)>::empty());
        assert(batch_view(out@).to_multiset() =~= target);
    }
    out
}

/// Whether the suffix of the batch starting at `start` encrypts to an
/// envelope within `max` characters. The envelope length is a function of
/// the serialized length alone.
pub open spec fn fits_at(msgs: Seq<CompactMessage>, start: int, max: int) -> bool {
    envelope_len(json_of_batch(batch_view(msgs.skip(start))).len()) <= max
}

/// The content of a message after the single-message fallback truncates its
/// text to its first 400 characters.
pub open spec fn truncated_view(m: CompactMessage) -> (int, Seq<char>) {
    (m.t as int, if m.m@.len() <= 400 { m.m@ } else { m.m@.take(400) })
}

/// The envelope carries exactly the wire form of these entries.
pub open spec fn envelope_holds(key: Seq<u8>, env: Seq<char>, es: Seq<(int, Seq<char>)>) -> bool {
    open_envelope(key, env) == Ok::<Seq<u8>, ProtocolError>(json_of_batch(es))
}

/// Serializes and encrypts the largest suffix of `messages` whose envelope
/// fits within `max_payload` characters, dropping the oldest first; when even
/// the last message alone does not fit, truncates its text to 400 characters
/// and returns that envelope without rechecking the bound. Never keeps more
/// messages than it was given, and never exceeds the ceiling as long as the
/// last message's truncated encoding fits alone.
pub fn trim_to_fit(messages: &Vec<CompactMessage>, enc_key: &[u8], max_payload: usize) -> (r:
    Result<(String, usize), ProtocolError>)
    ensures
        r is Ok <==> enc_key@.len() == 32,
        match r {
            Ok((env, kept)) => {
                let n = messages@.len();
                &&& kept <= n
                &&& (n == 0 ==> kept == 0 && envelope_holds(
                    enc_key@,
                    env@,
                    Seq::<(int, Seq<char>)>::empty(),
                ) && env@.len() == envelope_len(
                    json_of_batch(Seq::<(int, Seq<char>)>::empty()).len(),
                ))
                &&& (n > 0 ==> {
                    &&& 1 <= kept
                    &&& (forall|s2: int| 0 <= s2 < n - kept ==> !fits_at(messages@, s2, max_payload as int))
                    &&& (if fits_at(messages@, n - kept, max_payload as int) {
                        envelope_holds(enc_key@, env@, batch_view(messages@.skip(n - kept)))
                            && env@.len() == envelope_len(
                            json_of_batch(batch_view(messages@.skip(n - kept))).len(),
                        ) && env@.len() <= max_payload
                    } else {
                        kept == 1 && envelope_holds(
                            enc_key@,
                            env@,
                            seq![truncated_view(messages@.last())],
                        ) && env@.len() == envelope_len(
                            json_of_batch(seq![truncated_view(messages@.last())]).len(),
                        )
                    })
                })
                &&& (n > 0 && envelope_len(
                    json_of_batch(seq![truncated_view(messages@.last())]).len(),
                ) <= max_payload ==> env@.len() <= max_payload)
                &&& env@.len() >= 56
            },
            Err(e) => e == ProtocolError::InvalidKeyLength,
        },
{
    let n = messages.len();
    if n == 0 {
        let empty: Vec<CompactMessage> = Vec::new();
        let json = serialize_batch(&empty, 0);
        proof {
            assert(empty@.skip(0) =~= empty@);
            assert(batch_view(empty@) =~= Seq::<(int, Seq<char>)>::empty());
        }
        return match encrypt_bytes(&json, enc_key) {
            Ok(env) => Ok((env, 0)),
            Err(e) => Err(e),
        };
    }
    let mut start: usize = 0;
    while start + 1 < n
        invariant
            n == messages@.len(),
            n > 0,
            start < n,
            forall|s2: int| 0 <= s2 < start ==> !fits_at(messages@, s2, max_payload as int),
        decreases n - start,
    {
        let json = serialize_batch(messages, start);
        let env = match encrypt_bytes(&json, enc_key) {
            Ok(env) => env,
            Err(e) => {
                return Err(e);
            },
        };
        let env_chars = env.as_str().unicode_len();
        if env_chars <= max_payload {
            proof {
                assert(fits_at(messages@, start as int, max_payload as int));
            }
            return Ok((env, n - start));
        }
        proof {
            assert(!fits_at(messages@, start as int, max_payload as int));
        }
        start = start + 1;
    }
    // One message left: try it as is, then truncate as a last resort.
    let json = serialize_batch(messages, start);
    let env = match encrypt_bytes(&json, enc_key) {
        Ok(env) => env,
        Err(e) => {
            return Err(e);
        },
    };
    let env_chars = env.as_str().unicode_len();
    if env_chars <= max_payload {
        proof {
            assert(fits_at(messages@, start as int, max_payload as int));
        }
        return Ok((env, 1));
    }
    proof {
        assert(!fits_at(messages@, start as int, max_payload as int));
    }
    let last = &messages[n - 1];
    let text_len = last.m.as_str().unicode_len();
    let cut: usize = if text_len > 400 {
        400
    } else {
        text_len
    };
    let short = last.m.as_str().substring_char(0, cut).to_owned();
    let tm = CompactMessage { t: last.t, m: short };
    let mut single: Vec<CompactMessage> = Vec::new();
    single.push(tm);
    proof {
        assert(single@.skip(0) =~= single@);
        assert(messages@.last() == messages@[n - 1]);
        assert(single@[0] == tm);
        assert(batch_view(single@)[0] == msg_view(tm));
        assert(tm.m@ == messages@.last().m@.subrange(0, cut as int));
        if text_len <= 400 {
            assert(messages@.last().m@.subrange(0, cut as int) =~= messages@.last().m@);
        } else {
            assert(messages@.last().m@.subrange(0, cut as int) =~= messages@.last().m@.take(400));
        }
        assert(batch_view(single@) =~= seq![truncated_view(messages@.last())]);
    }
    let json2 = serialize_batch(&single, 0);
    match encrypt_bytes(&json2, enc_key) {
        Ok(env2) => Ok((env2, 1)),
        Err(e) => Err(e),
    }
}

} // verus!
