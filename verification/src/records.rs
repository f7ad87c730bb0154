//! Record sets: building the named-field set a publish signs, and
//! reconstructing a typed view from a resolved set, including the legacy
//! single-message fallback.

use crate::crypto::{decrypt, decrypt_bytes, decrypt_spec, encrypt, open_envelope};
use crate::errors::ProtocolError;
use crate::fitting::{envelope_holds, fits_at, sort_batch, sorted_by_ts, trim_to_fit, truncated_view};
use crate::json::{batch_from_json, parse_batch};
use crate::nums::{dec_i64, lemma_dec_ascii, i64_to_dec, parse_i64_bytes, parse_i64_spec};
use crate::strutil::{ascii_bytes_to_string, to_char_vec};
use crate::types::{batch_view, msg_view, CompactMessage, PkarrMessage, ResolvedBatch};
use vstd::prelude::*;
use vstd::utf8::encode_utf8;

verus! {

/// The payload ceiling, in encoded characters, enforced for `_msgs`.
pub const MAX_MSGS_PAYLOAD_B64: usize = 800;

pub open spec fn lbl_msgs() -> Seq<char> {
    seq!['_', 'm', 's', 'g', 's']
}

pub open spec fn lbl_msg() -> Seq<char> {
    seq!['_', 'm', 's', 'g']
}

pub open spec fn lbl_ts() -> Seq<char> {
    seq!['_', 't', 's']
}

pub open spec fn lbl_ack() -> Seq<char> {
    seq!['_', 'a', 'c', 'k']
}

pub open spec fn lbl_nick() -> Seq<char> {
    seq!['_', 'n', 'i', 'c', 'k']
}

pub open spec fn lbl_call() -> Seq<char> {
    seq!['_', 'c', 'a', 'l', 'l']
}

/// A record name with its trailing dots removed.
pub open spec fn trim_dots(s: Seq<char>) -> Seq<char>
    decreases s.len(),
{
    if s.len() > 0 && s.last() == '.' {
        trim_dots(s.drop_last())
    } else {
        s
    }
}

/// The prefix of a name up to (not including) its first dot.
pub open spec fn until_dot(s: Seq<char>) -> Seq<char>
    decreases s.len(),
{
    if s.len() == 0 {
        Seq::empty()
    } else if s[0] == '.' {
        Seq::empty()
    } else {
        seq![s[0]] + until_dot(s.drop_first())
    }
}

/// The bare label of a record name: trailing dots trimmed, first dot on.
pub open spec fn first_label(name: Seq<char>) -> Seq<char> {
    until_dot(trim_dots(name))
}

/// A name without dots is its own label.
pub proof fn lemma_first_label_dotless(s: Seq<char>)
    requires
        forall|k: int| 0 <= k < s.len() ==> s[k] != '.',
    ensures
        first_label(s) == s,
{
    assert(trim_dots(s) == s);
    lemma_until_dot_dotless(s);
}

proof fn lemma_until_dot_dotless(s: Seq<char>)
    requires
        forall|k: int| 0 <= k < s.len() ==> s[k] != '.',
    ensures
        until_dot(s) == s,
    decreases s.len(),
{
    if s.len() > 0 {
        assert(s[0] != '.');
        assert(forall|k: int| 0 <= k < s.drop_first().len() ==> s.drop_first()[k] != '.');
        lemma_until_dot_dotless(s.drop_first());
        assert(seq![s[0]] + s.drop_first() =~= s);
    }
}

/// The bare label of a record name, executable form.
pub fn first_label_of(name: &str) -> (r: String)
    ensures
        r@ == first_label(name@),
{
    let chars = to_char_vec(name);
    let n = chars.len();
    let mut e = n;
    proof {
        assert(name@.take(n as int) =~= name@);
    }
    while e > 0 && chars[e - 1] == '.'
        invariant
            e <= n,
            n == name@.len(),
            chars@ == name@,
            trim_dots(name@) == trim_dots(name@.take(e as int)),
        decreases e,
    {
        proof {
            assert(name@.take(e as int).last() == name@[e - 1]);
            assert(name@.take(e as int).drop_last() =~= name@.take(e as int - 1));
        }
        e = e - 1;
    }
    proof {
        if e > 0 {
            assert(name@.take(e as int).last() == name@[e - 1]);
        }
        assert(trim_dots(name@.take(e as int)) == name@.take(e as int));
    }
    let mut j: usize = 0;
    while j < e && chars[j] != '.'
        invariant
            j <= e <= n,
            n == name@.len(),
            chars@ == name@,
            forall|k: int| 0 <= k < j ==> name@[k] != '.',
        decreases e - j,
    {
        j = j + 1;
    }
    proof {
        lemma_until_dot_take(name@.take(e as int), j as int);
        assert(name@.take(e as int).take(j as int) =~= name@.take(j as int));
        assert(name@.subrange(0, j as int) =~= name@.take(j as int));
    }
    name.substring_char(0, j).to_owned()
}

proof fn lemma_until_dot_take(t: Seq<char>, j: int)
    requires
        0 <= j <= t.len(),
        forall|k: int| 0 <= k < j ==> t[k] != '.',
        j < t.len() ==> t[j] == '.',
    ensures
        until_dot(t) == t.take(j),
    decreases j + 1,
{
    if j == 0 {
        assert(t.take(0) =~= Seq::<char>::empty());
    } else {
        assert(t[0] != '.');
        assert(forall|k: int| 0 <= k < j - 1 ==> t.drop_first()[k] != '.');
        assert(j - 1 < t.drop_first().len() ==> t.drop_first()[j - 1] == '.');
        lemma_until_dot_take(t.drop_first(), j - 1);
        assert(seq![t[0]] + t.drop_first().take(j - 1) =~= t.take(j));
    }
}

/// Name and value of each field, as character sequences.
pub open spec fn fields_view(fs: Seq<(String, String)>) -> Seq<(Seq<char>, Seq<char>)> {
    fs.map_values(|f: (String, String)| (f.0@, f.1@))
}

/// The value of the last field whose label is `l`.
pub open spec fn last_with_label(fs: Seq<(Seq<char>, Seq<char>)>, l: Seq<char>) -> Option<
    Seq<char>,
>
    decreases fs.len(),
{
    if fs.len() == 0 {
        None
    } else if first_label(fs.last().0) == l {
        Some(fs.last().1)
    } else {
        last_with_label(fs.drop_last(), l)
    }
}

/// The value of the last field labelled either `l1` or `l2`.
pub open spec fn last_with_either(
    fs: Seq<(Seq<char>, Seq<char>)>,
    l1: Seq<char>,
    l2: Seq<char>,
) -> Option<Seq<char>>
    decreases fs.len(),
{
    if fs.len() == 0 {
        None
    } else if first_label(fs.last().0) == l1 || first_label(fs.last().0) == l2 {
        Some(fs.last().1)
    } else {
        last_with_either(fs.drop_last(), l1, l2)
    }
}

/// The decryption of the last field labelled `l` whose decryption succeeds;
/// failures on earlier fields are skipped, never fatal.
pub open spec fn last_ok_decrypt(
    fs: Seq<(Seq<char>, Seq<char>)>,
    l: Seq<char>,
    key: Seq<u8>,
) -> Option<Seq<char>>
    decreases fs.len(),
{
    if fs.len() == 0 {
        None
    } else if first_label(fs.last().0) == l && decrypt_spec(key, fs.last().1) is Ok {
        Some(decrypt_spec(key, fs.last().1)->Ok_0)
    } else {
        last_ok_decrypt(fs.drop_last(), l, key)
    }
}

/// An integer field's value: parse of the last occurrence, zero on absence
/// or parse failure.
pub open spec fn parse_or_zero(v: Option<Seq<char>>) -> int {
    match v {
        None => 0,
        Some(s) => match parse_i64_spec(encode_utf8(s)) {
            Some(x) => x,
            None => 0,
        },
    }
}

pub open spec fn ts_field(fs: Seq<(Seq<char>, Seq<char>)>) -> int {
    parse_or_zero(last_with_label(fs, lbl_ts()))
}

pub open spec fn ack_field(fs: Seq<(Seq<char>, Seq<char>)>) -> int {
    parse_or_zero(last_with_label(fs, lbl_ack()))
}

/// The encoded length of the last `_msgs` or `_msg` value seen.
pub open spec fn payload_length_field(fs: Seq<(Seq<char>, Seq<char>)>) -> int {
    match last_with_either(fs, lbl_msgs(), lbl_msg()) {
        Some(v) => (encode_utf8(v).len() as usize) as int,
        None => 0,
    }
}

/// The batch carried by the `_msgs` field: present, non-empty value,
/// authentic under the key, and well-formed on the wire.
pub open spec fn msgs_entries(fs: Seq<(Seq<char>, Seq<char>)>, key: Seq<u8>) -> Option<
    Seq<(int, Seq<char>)>,
> {
    match last_with_label(fs, lbl_msgs()) {
        Some(p) => if p.len() > 0 {
            match open_envelope(key, p) {
                Ok(bytes) => batch_from_json(bytes),
                Err(_) => None,
            }
        } else {
            None
        },
        None => None,
    }
}

/// The batch the resolver adopts from `_msgs`: only a non-empty one.
pub open spec fn used_entries(fs: Seq<(Seq<char>, Seq<char>)>, key: Seq<u8>) -> Option<
    Seq<(int, Seq<char>)>,
> {
    match msgs_entries(fs, key) {
        Some(es) => if es.len() > 0 {
            Some(es)
        } else {
            None
        },
        None => None,
    }
}

/// The legacy single message: the decryption of the last readable `_msg`.
pub open spec fn legacy_text(fs: Seq<(Seq<char>, Seq<char>)>, key: Seq<u8>) -> Option<Seq<char>> {
    last_ok_decrypt(fs, lbl_msg(), key)
}

/// The reconstructed message list: the `_msgs` batch when it decodes to a
/// non-empty batch; else the legacy `_msg` stamped with a positive `_ts`;
/// else nothing.
pub open spec fn resolved_entries(fs: Seq<(Seq<char>, Seq<char>)>, key: Seq<u8>) -> Seq<
    (int, Seq<char>),
> {
    match used_entries(fs, key) {
        Some(es) => es,
        None => match legacy_text(fs, key) {
            Some(lm) => if ts_field(fs) > 0 {
                seq![(ts_field(fs), lm)]
            } else {
                Seq::empty()
            },
            None => Seq::empty(),
        },
    }
}

/// The maximum timestamp in a non-empty entry list.
pub open spec fn max_ts(es: Seq<(int, Seq<char>)>) -> int
    decreases es.len(),
{
    if es.len() <= 1 {
        if es.len() == 1 {
            es[0].0
        } else {
            0
        }
    } else {
        let m = max_ts(es.drop_last());
        if es.last().0 > m {
            es.last().0
        } else {
            m
        }
    }
}

/// The published latest timestamp: the `_ts` field, recomputed from the
/// adopted batch when `_ts` was absent or zero.
pub open spec fn latest_spec(fs: Seq<(Seq<char>, Seq<char>)>, key: Seq<u8>) -> int {
    let t0 = ts_field(fs);
    match used_entries(fs, key) {
        Some(es) => if t0 == 0 && es.len() > 0 {
            max_ts(es)
        } else {
            t0
        },
        None => t0,
    }
}

} // verus!

// ---------------------------------------------------------------------------
// Publish side: assembling the record set.
// ---------------------------------------------------------------------------

verus! {

/// The characters of a decimal rendering.
pub open spec fn dec_chars(v: int) -> Seq<char> {
    dec_i64(v).map_values(|b: u8| b as char)
}

/// What a successful publish-side build guarantees, stated against the
/// sorted copy `srt` of the input batch.
pub open spec fn publish_post(
    srt: Seq<CompactMessage>,
    input: Seq<CompactMessage>,
    fs: Seq<(Seq<char>, Seq<char>)>,
    kept: int,
    key: Seq<u8>,
    ack: int,
    nick: Option<Seq<char>>,
    call: Option<Seq<char>>,
) -> bool {
    let n = srt.len() as int;
    let na: int = if ack > 0 {
        1
    } else {
        0
    };
    let nn: int = if nick is Some {
        1
    } else {
        0
    };
    let nc: int = if call is Some {
        1
    } else {
        0
    };
    let latest: int = if n > 0 {
        srt.last().t as int
    } else {
        0
    };
    &&& sorted_by_ts(srt)
    &&& batch_view(srt).to_multiset() == batch_view(input).to_multiset()
    &&& srt.len() == input.len()
    &&& 0 <= kept <= n
    &&& fs.len() == 2 + na + nn + nc
    &&& fs[0].0 == lbl_msgs()
    &&& (n == 0 ==> kept == 0 && envelope_holds(key, fs[0].1, Seq::<(int, Seq<char>)>::empty()))
    &&& (n > 0 ==> 1 <= kept && (forall|s2: int|
        0 <= s2 < n - kept ==> !fits_at(srt, s2, MAX_MSGS_PAYLOAD_B64 as int)) && (if fits_at(
        srt,
        n - kept,
        MAX_MSGS_PAYLOAD_B64 as int,
    ) {
        envelope_holds(key, fs[0].1, batch_view(srt.skip(n - kept))) && fs[0].1.len()
            <= MAX_MSGS_PAYLOAD_B64
    } else {
        kept == 1 && envelope_holds(key, fs[0].1, seq![truncated_view(srt.last())])
    }))
    &&& fs[0].1.len() >= 56
    &&& fs[1].0 == lbl_ts()
    &&& fs[1].1 == dec_chars(latest)
    &&& (ack > 0 ==> fs[2].0 == lbl_ack() && fs[2].1 == dec_chars(ack))
    &&& (nick matches Some(nv) ==> fs[2 + na].0 == lbl_nick() && decrypt_spec(key, fs[2 + na].1)
        == Ok::<Seq<char>, ProtocolError>(nv))
    &&& (call matches Some(cv) ==> fs[2 + na + nn].0 == lbl_call() && decrypt_spec(
        key,
        fs[2 + na + nn].1,
    ) == Ok::<Seq<char>, ProtocolError>(cv))
    &&& (forall|j: int| 1 <= j < fs.len() ==> (#[trigger] fs[j]).0 != lbl_msgs())
}

/// The view of an optional text argument.
pub open spec fn opt_view(o: Option<&String>) -> Option<Seq<char>> {
    match o {
        Some(s) => Some(s@),
        None => None,
    }
}

/// Builds the record set for one publish: sorts the batch, fits it into the
/// `_msgs` ceiling, renders `_ts` from the kept batch's newest timestamp,
/// includes `_ack` only when positive, and encrypts the optional display
/// name and signal. Succeeds exactly on 32-byte keys.
#[verifier::rlimit(100)]
pub fn build_records(
    messages: &Vec<CompactMessage>,
    enc_key: &[u8],
    ack_timestamp: i64,
    nick: Option<&String>,
    call_signal: Option<&String>,
) -> (r: Result<(Vec<(String, String)>, usize), ProtocolError>)
    ensures
        r is Ok <==> enc_key@.len() == 32,
        match r {
            Ok(p) => exists|srt: Seq<CompactMessage>|
                #[trigger] publish_post(
                    srt,
                    messages@,
                    fields_view(p.0@),
                    p.1 as int,
                    enc_key@,
                    ack_timestamp as int,
                    opt_view(nick),
                    opt_view(call_signal),
                ),
            Err(e) => e == ProtocolError::InvalidKeyLength,
        },
{
    let sorted = sort_batch(messages);
    let (payload, kept) = match trim_to_fit(&sorted, enc_key, MAX_MSGS_PAYLOAD_B64) {
        Ok(p) => p,
        Err(e) => {
            return Err(e);
        },
    };
    let mut fields: Vec<(String, String)> = Vec::new();
    let l_msgs = String::from_str("_msgs");
    proof {
        reveal_strlit("_msgs");
        assert(l_msgs@ =~= lbl_msgs());
    }
    fields.push((l_msgs, payload));
    let latest: i64 = if sorted.len() > 0 {
        sorted[sorted.len() - 1].t
    } else {
        0
    };
    proof {
        lemma_dec_ascii(latest as int);
    }
    let ts_str = ascii_bytes_to_string(i64_to_dec(latest));
    let l_ts = String::from_str("_ts");
    proof {
        reveal_strlit("_ts");
        assert(l_ts@ =~= lbl_ts());
    }
    fields.push((l_ts, ts_str));
    if ack_timestamp > 0 {
        proof {
            lemma_dec_ascii(ack_timestamp as int);
        }
        let ack_str = ascii_bytes_to_string(i64_to_dec(ack_timestamp));
        let l_ack = String::from_str("_ack");
        proof {
            reveal_strlit("_ack");
            assert(l_ack@ =~= lbl_ack());
        }
        fields.push((l_ack, ack_str));
    }
    match nick {
        Some(ns) => {
            let env = match encrypt(ns.as_str(), enc_key) {
                Ok(e) => e,
                Err(e) => {
                    return Err(e);
                },
            };
            let l_nick = String::from_str("_nick");
            proof {
                reveal_strlit("_nick");
                assert(l_nick@ =~= lbl_nick());
            }
            fields.push((l_nick, env));
        },
        None => {},
    }
    match call_signal {
        Some(cs) => {
            let env = match encrypt(cs.as_str(), enc_key) {
                Ok(e) => e,
                Err(e) => {
                    return Err(e);
                },
            };
            let l_call = String::from_str("_call");
            proof {
                reveal_strlit("_call");
                assert(l_call@ =~= lbl_call());
            }
            fields.push((l_call, env));
        },
        None => {},
    }
    proof {
        let fv = fields_view(fields@);
        assert forall|j: int| 0 <= j < fv.len() implies fv[j] == (
            fields@[j].0@,
            fields@[j].1@,
        ) by {}
        if sorted@.len() > 0 {
            assert(sorted@.last() == sorted@[sorted@.len() - 1]);
        }
        let n = sorted@.len() as int;
        let na: int = if ack_timestamp > 0 { 1 } else { 0 };
        let nn: int = if nick is Some { 1 } else { 0 };
        assert(fv.len() == 2 + na + nn + (if call_signal is Some { 1int } else { 0 }));
        assert(fv[0].0 == lbl_msgs());
        assert(fv[0].1 == payload@);
        assert(fv[1].0 == lbl_ts());
        assert(fv[1].1 == dec_chars(if n > 0 { sorted@.last().t as int } else { 0 }));
        assert(ack_timestamp > 0 ==> fv[2].0 == lbl_ack() && fv[2].1 == dec_chars(
            ack_timestamp as int,
        ));
        assert(lbl_ts().len() != lbl_msgs().len());
        assert(lbl_ack().len() != lbl_msgs().len());
        assert(lbl_nick()[1] != lbl_msgs()[1]);
        assert(lbl_nick() != lbl_msgs());
        assert(lbl_call()[1] != lbl_msgs()[1]);
        assert(lbl_call() != lbl_msgs());
        assert(forall|j: int| 1 <= j < fv.len() ==> (#[trigger] fv[j]).0 != lbl_msgs());
        assert(0 <= kept <= n);
        assert(n == 0 ==> kept == 0 && envelope_holds(
            enc_key@,
            fv[0].1,
            Seq::<(int, Seq<char>)>::empty(),
        ));
        if n > 0 {
            assert(1 <= kept);
            assert(forall|s2: int|
                0 <= s2 < n - kept ==> !fits_at(sorted@, s2, MAX_MSGS_PAYLOAD_B64 as int));
            if fits_at(sorted@, n - kept, MAX_MSGS_PAYLOAD_B64 as int) {
                assert(envelope_holds(enc_key@, fv[0].1, batch_view(sorted@.skip(n - kept))));
                assert(fv[0].1.len() <= MAX_MSGS_PAYLOAD_B64);
            } else {
                assert(kept == 1 && envelope_holds(
                    enc_key@,
                    fv[0].1,
                    seq![truncated_view(sorted@.last())],
                ));
            }
        }
        match nick {
            Some(ns) => {
                assert(fv[2 + na].0 == lbl_nick());
                assert(decrypt_spec(enc_key@, fv[2 + na].1) == Ok::<Seq<char>, ProtocolError>(ns@));
            },
            None => {},
        }
        match call_signal {
            Some(cs) => {
                assert(fv[2 + na + nn].0 == lbl_call());
                assert(decrypt_spec(enc_key@, fv[2 + na + nn].1) == Ok::<Seq<char>, ProtocolError>(
                    cs@,
                ));
            },
            None => {},
        }
        assert(publish_post(
            sorted@,
            messages@,
            fv,
            kept as int,
            enc_key@,
            ack_timestamp as int,
            opt_view(nick),
            opt_view(call_signal),
        ));
    }
    let ghost fv0 = fields@;
    let res: Result<(Vec<(String, String)>, usize), ProtocolError> = Ok((fields, kept));
    proof {
        assert(res is Ok);
        let p = res->Ok_0;
        assert(p.1 == kept);
        assert(p.0@ == fv0);
        assert(exists|srt: Seq<CompactMessage>|
            #[trigger] publish_post(
                srt,
                messages@,
                fields_view(p.0@),
                p.1 as int,
                enc_key@,
                ack_timestamp as int,
                opt_view(nick),
                opt_view(call_signal),
            ));
    }
    res
}

} // verus!

// ---------------------------------------------------------------------------
// Resolve side: reconstructing the typed view.
// ---------------------------------------------------------------------------

verus! {

/// A copy of an optional string.
fn clone_opt(o: &Option<String>) -> (r: Option<String>)
    ensures
        match o {
            Some(s) => r matches Some(t) && t@ == s@,
            None => r is None,
        },
{
    match o {
        Some(s) => Some(s.clone()),
        None => None,
    }
}

/// The fold state after scanning a prefix of the fields.
pub open spec fn scan_ok(
    pre: Seq<(Seq<char>, Seq<char>)>,
    key: Seq<u8>,
    payload: Option<String>,
    enc_len: int,
    latest: int,
    ack: int,
    nick: Option<String>,
    call: Option<String>,
    legacy: Option<String>,
) -> bool {
    &&& (match last_with_label(pre, lbl_msgs()) {
        Some(v) => payload matches Some(s) && s@ == v,
        None => payload is None,
    })
    &&& enc_len == payload_length_field(pre)
    &&& latest == ts_field(pre)
    &&& ack == ack_field(pre)
    &&& (match last_ok_decrypt(pre, lbl_nick(), key) {
        Some(v) => nick matches Some(s) && s@ == v,
        None => nick is None,
    })
    &&& (match last_ok_decrypt(pre, lbl_call(), key) {
        Some(v) => call matches Some(s) && s@ == v,
        None => call is None,
    })
    &&& (match last_ok_decrypt(pre, lbl_msg(), key) {
        Some(v) => legacy matches Some(s) && s@ == v,
        None => legacy is None,
    })
}

/// Decryption for the resolver's optional fields: just the success mirror.
fn decrypt_opt(v: &String, enc_key: &[u8]) -> (r: Option<String>)
    ensures
        match r {
            Some(d) => decrypt_spec(enc_key@, v@) == Ok::<Seq<char>, ProtocolError>(d@),
            None => decrypt_spec(enc_key@, v@) is Err,
        },
{
    match decrypt(v.as_str(), enc_key) {
        Ok(d) => Some(d),
        Err(_) => None,
    }
}

/// Scans one field, updating the fold state for its label.
#[verifier::rlimit(100)]
#[verifier::spinoff_prover]
fn scan_field(
    f: &(String, String),
    enc_key: &[u8],
    Ghost(pre): Ghost<Seq<(Seq<char>, Seq<char>)>>,
    payload: &mut Option<String>,
    enc_len: &mut usize,
    latest: &mut i64,
    ack: &mut i64,
    nick: &mut Option<String>,
    call: &mut Option<String>,
    legacy: &mut Option<String>,
) -> (label: String)
    requires
        scan_ok(
            pre,
            enc_key@,
            *old(payload),
            *old(enc_len) as int,
            *old(latest) as int,
            *old(ack) as int,
            *old(nick),
            *old(call),
            *old(legacy),
        ),
    ensures
        label@ == first_label(f.0@),
        scan_ok(
            pre.push((f.0@, f.1@)),
            enc_key@,
            *final(payload),
            *final(enc_len) as int,
            *final(latest) as int,
            *final(ack) as int,
            *final(nick),
            *final(call),
            *final(legacy),
        ),
{
    let l_msgs = String::from_str("_msgs");
    let l_msg = String::from_str("_msg");
    let l_ts = String::from_str("_ts");
    let l_ack = String::from_str("_ack");
    let l_nick = String::from_str("_nick");
    let l_call = String::from_str("_call");
    proof {
        reveal_strlit("_msgs");
        reveal_strlit("_msg");
        reveal_strlit("_ts");
        reveal_strlit("_ack");
        reveal_strlit("_nick");
        reveal_strlit("_call");
        assert(l_msgs@ =~= lbl_msgs());
        assert(l_msg@ =~= lbl_msg());
        assert(l_ts@ =~= lbl_ts());
        assert(l_ack@ =~= lbl_ack());
        assert(l_nick@ =~= lbl_nick());
        assert(l_call@ =~= lbl_call());
        assert(pre.push((f.0@, f.1@)).drop_last() =~= pre);
        assert(pre.push((f.0@, f.1@)).last() == (f.0@, f.1@));
        assert(lbl_msg() != lbl_ack()) by {
            assert(lbl_msg()[1] != lbl_ack()[1]);
        }
        assert(lbl_msgs() != lbl_nick()) by {
            assert(lbl_msgs()[1] != lbl_nick()[1]);
        }
        assert(lbl_msgs() != lbl_call()) by {
            assert(lbl_msgs()[1] != lbl_call()[1]);
        }
        assert(lbl_nick() != lbl_call()) by {
            assert(lbl_nick()[1] != lbl_call()[1]);
        }
    }
    let label = first_label_of(f.0.as_str());
    if label == l_msgs {
        *enc_len = f.1.as_str().len();
        *payload = Some(f.1.clone());
    } else if label == l_msg {
        *enc_len = f.1.as_str().len();
        match decrypt_opt(&f.1, enc_key) {
            Some(d) => {
                *legacy = Some(d);
            },
            None => {},
        }
    } else if label == l_ts {
        *latest = match parse_i64_bytes(f.1.as_str().as_bytes()) {
            Some(v) => v,
            None => 0,
        };
    } else if label == l_ack {
        *ack = match parse_i64_bytes(f.1.as_str().as_bytes()) {
            Some(v) => v,
            None => 0,
        };
    } else if label == l_nick {
        match decrypt_opt(&f.1, enc_key) {
            Some(d) => {
                *nick = Some(d);
            },
            None => {},
        }
    } else if label == l_call {
        match decrypt_opt(&f.1, enc_key) {
            Some(d) => {
                *call = Some(d);
            },
            None => {},
        }
    }
    label
}

/// Everything the resolver promises of its reconstruction, field by field.
pub open spec fn resolved_post(
    fs: Seq<(Seq<char>, Seq<char>)>,
    key: Seq<u8>,
    packet_timestamp: i64,
    r: ResolvedBatch,
) -> bool {
    let nick0 = last_ok_decrypt(fs, lbl_nick(), key);
    let es = resolved_entries(fs, key);
    &&& r.packet_timestamp == packet_timestamp
    &&& r.peer_ack as int == ack_field(fs)
    &&& r.latest_timestamp as int == latest_spec(fs, key)
    &&& r.encrypted_payload_length as int == payload_length_field(fs)
    &&& r.raw_record_names@.len() == fs.len()
    &&& (forall|k: int|
        0 <= k < fs.len() ==> (#[trigger] r.raw_record_names@[k])@ == first_label(fs[k].0))
    &&& (match last_ok_decrypt(fs, lbl_call(), key) {
        Some(cv) => r.call_signal matches Some(s) && s@ == cv,
        None => r.call_signal is None,
    })
    &&& r.messages@.len() == es.len()
    &&& r.message_count == es.len()
    &&& (forall|k: int|
        0 <= k < es.len() ==> {
            &&& (#[trigger] r.messages@[k]).timestamp as int == es[k].0
            &&& r.messages@[k].text@ == es[k].1
            &&& (match nick0 {
                Some(nv) => r.messages@[k].nick matches Some(s) && s@ == nv,
                None => r.messages@[k].nick is None,
            })
        })
}

/// Reconstructs the read-side view of one resolved record set: scans every
/// field, adopting the last occurrence of each recognized label; decrypt
/// failures on `_nick`, `_call` and `_msg` are swallowed; a `_msgs` field
/// that decrypts and parses to a non-empty batch wins, else a readable
/// legacy `_msg` stamped with a positive `_ts` yields a single message.
#[verifier::rlimit(100)]
pub fn resolve_records(fields: &Vec<(String, String)>, enc_key: &[u8], packet_timestamp: i64) -> (r:
    ResolvedBatch)
    ensures
        resolved_post(fields_view(fields@), enc_key@, packet_timestamp, r),
{
    let ghost fs = fields_view(fields@);
    let n = fields.len();
    let mut raw_names: Vec<String> = Vec::new();
    let mut msgs_payload: Option<String> = None;
    let mut enc_len: usize = 0;
    let mut latest: i64 = 0;
    let mut ack: i64 = 0;
    let mut nick: Option<String> = None;
    let mut call: Option<String> = None;
    let mut legacy: Option<String> = None;
    let mut i: usize = 0;
    while i < n
        invariant
            i <= n,
            n == fields@.len(),
            fs == fields_view(fields@),
            raw_names@.len() == i,
            forall|k: int| 0 <= k < i ==> (#[trigger] raw_names@[k])@ == first_label(fs[k].0),
            scan_ok(
                fs.take(i as int),
                enc_key@,
                msgs_payload,
                enc_len as int,
                latest as int,
                ack as int,
                nick,
                call,
                legacy,
            ),
        decreases n - i,
    {
        let f = &fields[i];
        proof {
            assert(fs[i as int] == (f.0@, f.1@));
            assert(fs.take(i as int).push((f.0@, f.1@)) =~= fs.take(i as int + 1));
        }
        let label = scan_field(
            f,
            enc_key,
            Ghost(fs.take(i as int)),
            &mut msgs_payload,
            &mut enc_len,
            &mut latest,
            &mut ack,
            &mut nick,
            &mut call,
            &mut legacy,
        );
        raw_names.push(label);
        i = i + 1;
    }
    proof {
        assert(fs.take(n as int) =~= fs);
    }
    let ghost nick0 = last_ok_decrypt(fs, lbl_nick(), enc_key@);
    let ghost es = resolved_entries(fs, enc_key@);
    let mut messages: Vec<PkarrMessage> = Vec::new();
    let mut used = false;
    match &msgs_payload {
        Some(p) => {
            if !p.as_str().is_empty() {
                match decrypt_bytes(p.as_str(), enc_key) {
                    Ok(bytes) => {
                        match parse_batch(&bytes) {
                            Some(batch) => {
                                if batch.len() > 0 {
                                    used = true;
                                    proof {
                                        assert(msgs_entries(fs, enc_key@) == Some(
                                            batch_view(batch@),
                                        ));
                                        assert(es == batch_view(batch@));
                                    }
                                    let bn = batch.len();
                                    let mut k: usize = 0;
                                    while k < bn
                                        invariant
                                            k <= bn,
                                            bn == batch@.len(),
                                            es == batch_view(batch@),
                                            match nick0 {
                                                Some(v) => nick matches Some(s) && s@ == v,
                                                None => nick is None,
                                            },
                                            nick0 == last_ok_decrypt(fs, lbl_nick(), enc_key@),
                                            messages@.len() == k,
                                            forall|j: int|
                                                0 <= j < k ==> (#[trigger] messages@[j]).timestamp
                                                    as int == es[j].0 && messages@[j].text@
                                                    == es[j].1 && (match nick0 {
                                                    Some(nv) => messages@[j].nick matches Some(s)
                                                        && s@ == nv,
                                                    None => messages@[j].nick is None,
                                                }),
                                        decreases bn - k,
                                    {
                                        let entry = &batch[k];
                                        messages.push(
                                            PkarrMessage {
                                                text: entry.m.clone(),
                                                timestamp: entry.t,
                                                nick: clone_opt(&nick),
                                            },
                                        );
                                        proof {
                                            assert(es[k as int] == msg_view(batch@[k as int]));
                                        }
                                        k = k + 1;
                                    }
                                    if latest == 0 {
                                        let mut mx = batch[0].t;
                                        proof {
                                            assert(es.take(1).len() == 1);
                                            assert(es.take(1)[0] == es[0]);
                                            assert(es[0] == msg_view(batch@[0]));
                                        }
                                        let mut j: usize = 1;
                                        while j < bn
                                            invariant
                                                1 <= j <= bn,
                                                bn == batch@.len(),
                                                es == batch_view(batch@),
                                                mx as int == max_ts(es.take(j as int)),
                                            decreases bn - j,
                                        {
                                            proof {
                                                assert(es.take(j as int + 1).drop_last()
                                                    =~= es.take(j as int));
                                                assert(es.take(j as int + 1).last() == es[j as int]);
                                                assert(es[j as int] == msg_view(batch@[j as int]));
                                            }
                                            if batch[j].t > mx {
                                                mx = batch[j].t;
                                            }
                                            j = j + 1;
                                        }
                                        proof {
                                            assert(es.take(bn as int) =~= es);
                                        }
                                        latest = mx;
                                    }
                                } else {
                                    proof {
                                        assert(msgs_entries(fs, enc_key@) == Some(
                                            batch_view(batch@),
                                        ));
                                        assert(used_entries(fs, enc_key@) is None);
                                    }
                                }
                            },
                            None => {
                                proof {
                                    assert(msgs_entries(fs, enc_key@) is None);
                                }
                            },
                        }
                    },
                    Err(_) => {
                        proof {
                            assert(msgs_entries(fs, enc_key@) is None);
                        }
                    },
                }
            } else {
                proof {
                    assert(msgs_entries(fs, enc_key@) is None);
                }
            }
        },
        None => {
            proof {
                assert(msgs_entries(fs, enc_key@) is None);
            }
        },
    }
    if !used {
        proof {
            assert(used_entries(fs, enc_key@) is None);
        }
        match &legacy {
            Some(lm) => {
                if latest > 0 {
                    messages.push(
                        PkarrMessage {
                            text: lm.clone(),
                            timestamp: latest,
                            nick: clone_opt(&nick),
                        },
                    );
                    proof {
                        assert(legacy_text(fs, enc_key@) matches Some(v) && v == lm@);
                        assert(es =~= seq![(ts_field(fs), lm@)]);
                    }
                } else {
                    proof {
                        assert(es =~= Seq::<(int, Seq<char>)>::empty());
                    }
                }
            },
            None => {
                proof {
                    assert(legacy_text(fs, enc_key@) is None);
                    assert(es =~= Seq::<(int, Seq<char>)>::empty());
                }
            },
        }
    }
    let count = messages.len();
    ResolvedBatch {
        messages,
        latest_timestamp: latest,
        peer_ack: ack,
        raw_record_names: raw_names,
        encrypted_payload_length: enc_len,
        packet_timestamp,
        message_count: count,
        call_signal: call,
    }
}

} // verus!

// ---------------------------------------------------------------------------
// Address validation and the resolve entry point.
// ---------------------------------------------------------------------------

verus! {

/// The z-base-32 alphabet used by public addresses.
pub open spec fn z32_char(c: char) -> bool {
    c == 'y' || c == 'b' || c == 'n' || c == 'd' || c == 'r' || c == 'f' || c == 'g' || c == '8'
        || c == 'e' || c == 'j' || c == 'k' || c == 'm' || c == 'c' || c == 'p' || c == 'q' || c
        == 'x' || c == 'o' || c == 't' || c == '1' || c == 'u' || c == 'w' || c == 'i' || c == 's'
        || c == 'z' || c == 'a' || c == '3' || c == '4' || c == '5' || c == 'h' || c == '7' || c
        == '6' || c == '9'
}

/// A well-formed public address: 52 characters of the z-base-32 alphabet.
pub open spec fn addr_valid(s: Seq<char>) -> bool {
    s.len() == 52 && forall|k: int| 0 <= k < s.len() ==> z32_char(#[trigger] s[k])
}

/// Checks the address format; a malformed address is a hard error, never a
/// silent empty result.
pub fn validate_address(public_key_z32: &str) -> (r: bool)
    ensures
        r == addr_valid(public_key_z32@),
{
    let chars = crate::strutil::to_char_vec(public_key_z32);
    if chars.len() != 52 {
        return false;
    }
    let mut k: usize = 0;
    while k < 52
        invariant
            k <= 52,
            chars@ == public_key_z32@,
            chars@.len() == 52,
            forall|j: int| 0 <= j < k ==> z32_char(#[trigger] chars@[j]),
        decreases 52 - k,
    {
        let c = chars[k];
        let ok = c == 'y' || c == 'b' || c == 'n' || c == 'd' || c == 'r' || c == 'f' || c == 'g'
            || c == '8' || c == 'e' || c == 'j' || c == 'k' || c == 'm' || c == 'c' || c == 'p' || c
            == 'q' || c == 'x' || c == 'o' || c == 't' || c == '1' || c == 'u' || c == 'w' || c
            == 'i' || c == 's' || c == 'z' || c == 'a' || c == '3' || c == '4' || c == '5' || c
            == 'h' || c == '7' || c == '6' || c == '9';
        if !ok {
            return false;
        }
        k = k + 1;
    }
    true
}

/// Resolves what the record store returned for one address: a malformed
/// address is a hard error; an address with no record set is a normal empty
/// state, `None`, never an error; otherwise the record set is reconstructed.
pub fn resolve_messages(
    public_key_z32: &str,
    resolved: Option<(Vec<(String, String)>, i64)>,
    enc_key: &[u8],
) -> (r: Result<Option<ResolvedBatch>, ProtocolError>)
    ensures
        !addr_valid(public_key_z32@) <==> (r matches Err(e) && e == ProtocolError::InvalidAddress),
        (addr_valid(public_key_z32@) && resolved is None) <==> (r matches Ok(o) && o is None),
        match r {
            Ok(o) => match o {
                Some(b) => resolved matches Some(p) && resolved_post(
                    fields_view(p.0@),
                    enc_key@,
                    p.1,
                    b,
                ),
                None => resolved is None,
            },
            Err(e) => !addr_valid(public_key_z32@) && e == ProtocolError::InvalidAddress,
        },
{
    if !validate_address(public_key_z32) {
        return Err(ProtocolError::InvalidAddress);
    }
    match resolved {
        None => Ok(None),
        Some((fields, packet_timestamp)) => Ok(
            Some(resolve_records(&fields, enc_key, packet_timestamp)),
        ),
    }
}

// ---------------------------------------------------------------------------
// Laws relating the publish and resolve sides.
// ---------------------------------------------------------------------------

proof fn lemma_last_with_label_unique(
    fs: Seq<(Seq<char>, Seq<char>)>,
    l: Seq<char>,
    w: int,
)
    requires
        0 <= w < fs.len(),
        first_label(fs[w].0) == l,
        forall|k: int| 0 <= k < fs.len() && k != w ==> first_label((#[trigger] fs[k]).0) != l,
    ensures
        last_with_label(fs, l) == Some(fs[w].1),
    decreases fs.len(),
{
    if w == fs.len() - 1 {
        assert(fs.last() == fs[w]);
    } else {
        assert(first_label(fs.last().0) != l);
        assert(fs.drop_last()[w] == fs[w]);
        lemma_last_with_label_unique(fs.drop_last(), l, w);
    }
}

proof fn lemma_last_with_label_absent(fs: Seq<(Seq<char>, Seq<char>)>, l: Seq<char>)
    requires
        forall|k: int| 0 <= k < fs.len() ==> first_label((#[trigger] fs[k]).0) != l,
    ensures
        last_with_label(fs, l) is None,
    decreases fs.len(),
{
    if fs.len() > 0 {
        assert(fs.drop_last().len() == fs.len() - 1);
        assert(forall|k: int|
            0 <= k < fs.drop_last().len() ==> first_label((#[trigger] fs.drop_last()[k]).0) != l);
        lemma_last_with_label_absent(fs.drop_last(), l);
    }
}

/// Ascending order: a record set whose single `_msgs` field carries the wire
/// form of a batch with non-decreasing timestamps resolves to exactly that
/// batch, in the published order.
pub proof fn lemma_published_batch_resolves_in_order(
    fs: Seq<(Seq<char>, Seq<char>)>,
    key: Seq<u8>,
    env: Seq<char>,
    es: Seq<(int, Seq<char>)>,
    w: int,
)
    requires
        es.len() > 0,
        forall|k: int|
            0 <= k < es.len() ==> -9223372036854775808 <= (#[trigger] es[k]).0
                <= 9223372036854775807,
        forall|i: int, j: int| 0 <= i <= j < es.len() ==> (#[trigger] es[i]).0 <= (#[trigger] es[j]).0,
        0 <= w < fs.len(),
        first_label(fs[w].0) == lbl_msgs(),
        fs[w].1 == env,
        env.len() > 0,
        forall|k: int|
            0 <= k < fs.len() && k != w ==> first_label((#[trigger] fs[k]).0) != lbl_msgs(),
        envelope_holds(key, env, es),
    ensures
        resolved_entries(fs, key) == es,
        forall|i: int, j: int|
            0 <= i <= j < resolved_entries(fs, key).len() ==> (#[trigger] resolved_entries(
                fs,
                key,
            )[i]).0 <= (#[trigger] resolved_entries(fs, key)[j]).0,
{
    lemma_last_with_label_unique(fs, lbl_msgs(), w);
    assert(last_with_label(fs, lbl_msgs()) == Some(env));
    crate::json::lemma_parse_of_json_batch(es);
    assert(msgs_entries(fs, key) == Some(es));
    assert(used_entries(fs, key) == Some(es));
}

/// Legacy fallback: a record set with no `_msgs` field, a readable `_msg`,
/// and a positive `_ts` resolves to exactly one message stamped with the
/// `_ts` value.
pub proof fn lemma_legacy_single_message(fs: Seq<(Seq<char>, Seq<char>)>, key: Seq<u8>)
    requires
        forall|k: int| 0 <= k < fs.len() ==> first_label((#[trigger] fs[k]).0) != lbl_msgs(),
        legacy_text(fs, key) is Some,
        ts_field(fs) > 0,
    ensures
        resolved_entries(fs, key) == seq![(ts_field(fs), legacy_text(fs, key)->Some_0)],
        latest_spec(fs, key) == ts_field(fs),
{
    lemma_last_with_label_absent(fs, lbl_msgs());
    assert(msgs_entries(fs, key) is None);
    assert(used_entries(fs, key) is None);
}

} // verus!

verus! {

proof fn lemma_labels_dotless()
    ensures
        first_label(lbl_msgs()) == lbl_msgs(),
        first_label(lbl_ts()) == lbl_ts(),
        first_label(lbl_ack()) == lbl_ack(),
        first_label(lbl_nick()) == lbl_nick(),
        first_label(lbl_call()) == lbl_call(),
{
    assert forall|k: int| 0 <= k < lbl_msgs().len() implies lbl_msgs()[k] != '.' by {
        if k == 0 {
        } else if k == 1 {
        } else if k == 2 {
        } else if k == 3 {
        }
    }
    lemma_first_label_dotless(lbl_msgs());
    assert forall|k: int| 0 <= k < lbl_ts().len() implies lbl_ts()[k] != '.' by {
        if k == 0 {
        } else if k == 1 {
        }
    }
    lemma_first_label_dotless(lbl_ts());
    assert forall|k: int| 0 <= k < lbl_ack().len() implies lbl_ack()[k] != '.' by {
        if k == 0 {
        } else if k == 1 {
        } else if k == 2 {
        }
    }
    lemma_first_label_dotless(lbl_ack());
    assert forall|k: int| 0 <= k < lbl_nick().len() implies lbl_nick()[k] != '.' by {
        if k == 0 {
        } else if k == 1 {
        } else if k == 2 {
        } else if k == 3 {
        }
    }
    lemma_first_label_dotless(lbl_nick());
    assert forall|k: int| 0 <= k < lbl_call().len() implies lbl_call()[k] != '.' by {
        if k == 0 {
        } else if k == 1 {
        } else if k == 2 {
        } else if k == 3 {
        }
    }
    lemma_first_label_dotless(lbl_call());
}

/// Ascending order, end to end: whenever a publish-side build kept a suffix
/// that fit the ceiling, resolving the record set it produced yields exactly
/// the kept messages, in non-decreasing timestamp order.
pub proof fn lemma_publish_then_resolve_in_order(
    srt: Seq<CompactMessage>,
    input: Seq<CompactMessage>,
    fs: Seq<(Seq<char>, Seq<char>)>,
    kept: int,
    key: Seq<u8>,
    ack: int,
    nick: Option<Seq<char>>,
    call: Option<Seq<char>>,
)
    requires
        publish_post(srt, input, fs, kept, key, ack, nick, call),
        srt.len() > 0,
        fits_at(srt, srt.len() - kept, MAX_MSGS_PAYLOAD_B64 as int),
    ensures
        resolved_entries(fs, key) == batch_view(srt.skip(srt.len() - kept)),
        forall|i: int, j: int|
            0 <= i <= j < resolved_entries(fs, key).len() ==> (#[trigger] resolved_entries(
                fs,
                key,
            )[i]).0 <= (#[trigger] resolved_entries(fs, key)[j]).0,
{
    let n = srt.len() as int;
    let es = batch_view(srt.skip(n - kept));
    assert(es.len() == kept);
    assert(kept >= 1);
    assert forall|k: int|
        0 <= k < es.len() implies -9223372036854775808 <= (#[trigger] es[k]).0
            <= 9223372036854775807 by {
        assert(es[k] == msg_view(srt.skip(n - kept)[k]));
    }
    assert forall|i: int, j: int| 0 <= i <= j < es.len() implies (#[trigger] es[i]).0 <= (
    #[trigger] es[j]).0 by {
        assert(es[i] == msg_view(srt.skip(n - kept)[i]));
        assert(es[j] == msg_view(srt.skip(n - kept)[j]));
        assert(srt.skip(n - kept)[i] == srt[n - kept + i]);
        assert(srt.skip(n - kept)[j] == srt[n - kept + j]);
    }
    lemma_labels_dotless();
    let na: int = if ack > 0 {
        1
    } else {
        0
    };
    let nn: int = if nick is Some {
        1
    } else {
        0
    };
    assert forall|k: int| 0 <= k < fs.len() && k != 0 implies first_label((#[trigger] fs[k]).0)
        != lbl_msgs() by {
        if k == 1 {
            assert(fs[k].0 == lbl_ts());
        } else if ack > 0 && k == 2 {
            assert(fs[k].0 == lbl_ack());
        } else if nick is Some && k == 2 + na {
            assert(fs[k].0 == lbl_nick());
        } else if call is Some && k == 2 + na + nn {
            assert(fs[k].0 == lbl_call());
        }
        assert(lbl_ts() != lbl_msgs());
        assert(lbl_ack() != lbl_msgs());
        assert(lbl_nick() != lbl_msgs()) by {
            assert(lbl_nick()[1] != lbl_msgs()[1]);
        }
        assert(lbl_call() != lbl_msgs()) by {
            assert(lbl_call()[1] != lbl_msgs()[1]);
        }
    }
    lemma_published_batch_resolves_in_order(fs, key, fs[0].1, es, 0);
}

} // verus!
