//! The batch wire format: a canonical JSON array of `{"t":…,"m":"…"}`
//! objects over UTF-8 bytes, with a verified serializer, a verified strict
//! parser, and the proof that parsing inverts serialization.

use crate::nums::{
    all_digits, dec_digits, dec_i64, dec_val, is_digit, lemma_dec_digits_are_digits,
    lemma_dec_val_of_digits, i64_to_dec,
};
use crate::strutil::string_from_utf8;
use crate::types::{batch_view, msg_view, CompactMessage};
use vstd::prelude::*;
use vstd::utf8::{decode_utf8, encode_utf8, valid_utf8};

verus! {

/// Lowercase hexadecimal digit for a nibble.
pub open spec fn hex_digit(n: int) -> u8 {
    if n < 10 {
        (0x30 + n) as u8
    } else {
        (0x61 + (n - 10)) as u8
    }
}

pub open spec fn is_hex_lower(b: u8) -> bool {
    is_digit(b) || (0x61 <= b <= 0x66)
}

pub open spec fn hex_val(b: u8) -> int {
    if is_digit(b) {
        b - 0x30
    } else {
        b - 0x61 + 10
    }
}

/// How one byte of message text is escaped inside a JSON string: quote and
/// backslash get a backslash escape, the five named controls their short
/// forms, the remaining controls a `\u00XX` form, and every other byte
/// passes through (multi-byte UTF-8 sequences are never touched).
pub open spec fn esc_byte(b: u8) -> Seq<u8> {
    if b == 0x22 {
        seq![0x5cu8, 0x22u8]
    } else if b == 0x5c {
        seq![0x5cu8, 0x5cu8]
    } else if b == 0x08 {
        seq![0x5cu8, 0x62u8]
    } else if b == 0x09 {
        seq![0x5cu8, 0x74u8]
    } else if b == 0x0a {
        seq![0x5cu8, 0x6eu8]
    } else if b == 0x0c {
        seq![0x5cu8, 0x66u8]
    } else if b == 0x0d {
        seq![0x5cu8, 0x72u8]
    } else if b < 0x20 {
        seq![0x5cu8, 0x75u8, 0x30u8, 0x30u8, hex_digit(b as int / 16), hex_digit(b as int % 16)]
    } else {
        seq![b]
    }
}

/// The escaped form of a whole byte string.
pub open spec fn esc(s: Seq<u8>) -> Seq<u8>
    decreases s.len(),
{
    if s.len() == 0 {
        Seq::empty()
    } else {
        esc_byte(s[0]) + esc(s.drop_first())
    }
}

/// `{"t":`
pub open spec fn obj_open() -> Seq<u8> {
    seq![0x7bu8, 0x22u8, 0x74u8, 0x22u8, 0x3au8]
}

/// `,"m":"`
pub open spec fn obj_mid() -> Seq<u8> {
    seq![0x2cu8, 0x22u8, 0x6du8, 0x22u8, 0x3au8, 0x22u8]
}

/// `"}`
pub open spec fn obj_close() -> Seq<u8> {
    seq![0x22u8, 0x7du8]
}

/// The wire form of one entry: timestamp and text characters.
pub open spec fn json_of_entry(e: (int, Seq<char>)) -> Seq<u8> {
    obj_open() + dec_i64(e.0) + obj_mid() + esc(encode_utf8(e.1)) + obj_close()
}

/// The comma-joined wire form of a list of entries.
pub open spec fn json_of_entries(es: Seq<(int, Seq<char>)>) -> Seq<u8>
    decreases es.len(),
{
    if es.len() == 0 {
        Seq::empty()
    } else if es.len() == 1 {
        json_of_entry(es[0])
    } else {
        json_of_entry(es[0]) + seq![0x2cu8] + json_of_entries(es.drop_first())
    }
}

/// The wire form of a whole batch.
pub open spec fn json_of_batch(es: Seq<(int, Seq<char>)>) -> Seq<u8> {
    seq![0x5bu8] + json_of_entries(es) + seq![0x5du8]
}

proof fn lemma_esc_snoc(s: Seq<u8>, b: u8)
    ensures
        esc(s.push(b)) == esc(s) + esc_byte(b),
    decreases s.len(),
{
    if s.len() == 0 {
        assert(s.push(b)[0] == b);
        assert(s.push(b).drop_first() =~= Seq::<u8>::empty());
        assert(esc(s.push(b)) == esc_byte(b) + esc(Seq::<u8>::empty()));
        assert(esc(s.push(b)) =~= esc(s) + esc_byte(b));
    } else {
        lemma_esc_snoc(s.drop_first(), b);
        assert(s.push(b)[0] == s[0]);
        assert(s.push(b).drop_first() =~= s.drop_first().push(b));
        assert(esc(s.push(b)) == esc_byte(s[0]) + (esc(s.drop_first()) + esc_byte(b)));
        assert(esc(s.push(b)) =~= esc(s) + esc_byte(b));
    }
}

proof fn lemma_entries_snoc(es: Seq<(int, Seq<char>)>, e: (int, Seq<char>))
    ensures
        es.len() == 0 ==> json_of_entries(es.push(e)) == json_of_entry(e),
        es.len() >= 1 ==> json_of_entries(es.push(e)) == json_of_entries(es) + seq![0x2cu8]
            + json_of_entry(e),
    decreases es.len(),
{
    if es.len() == 0 {
        assert(es.push(e)[0] == e);
        assert(json_of_entries(es.push(e)) == json_of_entry(e));
    } else if es.len() == 1 {
        assert(es.push(e).drop_first() =~= es.drop_first().push(e));
        assert(es.push(e)[0] == es[0]);
        lemma_entries_snoc(es.drop_first(), e);
        assert(json_of_entries(es.push(e)) =~= json_of_entries(es) + seq![0x2cu8] + json_of_entry(
            e,
        ));
    } else {
        assert(es.push(e).drop_first() =~= es.drop_first().push(e));
        assert(es.push(e)[0] == es[0]);
        lemma_entries_snoc(es.drop_first(), e);
        assert(json_of_entries(es.push(e)) =~= json_of_entries(es) + seq![0x2cu8] + json_of_entry(
            e,
        ));
    }
}

/// Appends the escaped form of `bytes` to `out`.
fn push_escaped(out: &mut Vec<u8>, bytes: &Vec<u8>)
    ensures
        final(out)@ == old(out)@ + esc(bytes@),
{
    let n = bytes.len();
    let mut i: usize = 0;
    while i < n
        invariant
            n == bytes@.len(),
            i <= n,
            out@ == old(out)@ + esc(bytes@.take(i as int)),
        decreases n - i,
    {
        let b = bytes[i];
        if b == 0x22 {
            out.push(0x5c);
            out.push(0x22);
        } else if b == 0x5c {
            out.push(0x5c);
            out.push(0x5c);
        } else if b == 0x08 {
            out.push(0x5c);
            out.push(0x62);
        } else if b == 0x09 {
            out.push(0x5c);
            out.push(0x74);
        } else if b == 0x0a {
            out.push(0x5c);
            out.push(0x6e);
        } else if b == 0x0c {
            out.push(0x5c);
            out.push(0x66);
        } else if b == 0x0d {
            out.push(0x5c);
            out.push(0x72);
        } else if b < 0x20 {
            out.push(0x5c);
            out.push(0x75);
            out.push(0x30);
            out.push(0x30);
            let hi = b / 16;
            let lo = b % 16;
            out.push(if hi < 10 { 0x30 + hi } else { 0x61 + (hi - 10) });
            out.push(if lo < 10 { 0x30 + lo } else { 0x61 + (lo - 10) });
        } else {
            out.push(b);
        }
        proof {
            lemma_esc_snoc(bytes@.take(i as int), bytes@[i as int]);
            assert(bytes@.take(i as int).push(bytes@[i as int]) =~= bytes@.take(i as int + 1));
            assert(out@ =~= old(out)@ + esc(bytes@.take(i as int + 1)));
        }
        i = i + 1;
    }
    proof {
        assert(bytes@.take(n as int) =~= bytes@);
    }
}

/// Appends the wire form of one message to `out`.
fn push_entry(out: &mut Vec<u8>, m: &CompactMessage)
    ensures
        final(out)@ == old(out)@ + json_of_entry(msg_view(*m)),
{
    out.push(0x7b);
    out.push(0x22);
    out.push(0x74);
    out.push(0x22);
    out.push(0x3a);
    let mut dec = i64_to_dec(m.t);
    out.append(&mut dec);
    out.push(0x2c);
    out.push(0x22);
    out.push(0x6d);
    out.push(0x22);
    out.push(0x3a);
    out.push(0x22);
    let bytes = m.m.as_str().as_bytes_vec();
    push_escaped(out, &bytes);
    out.push(0x22);
    out.push(0x7d);
    proof {
        assert(out@ =~= old(out)@ + json_of_entry(msg_view(*m)));
    }
}

/// The wire form of the batch suffix starting at `from`, ready to encrypt.
pub fn serialize_batch(msgs: &Vec<CompactMessage>, from: usize) -> (r: Vec<u8>)
    requires
        from <= msgs@.len(),
    ensures
        r@ == json_of_batch(batch_view(msgs@.skip(from as int))),
{
    let ghost es = batch_view(msgs@.skip(from as int));
    let mut out: Vec<u8> = Vec::new();
    out.push(0x5b);
    let n = msgs.len();
    let mut i: usize = from;
    while i < n
        invariant
            from <= i <= n,
            n == msgs@.len(),
            es == batch_view(msgs@.skip(from as int)),
            out@ == seq![0x5bu8] + json_of_entries(es.take(i - from)),
        decreases n - i,
    {
        if i > from {
            out.push(0x2c);
        }
        push_entry(&mut out, &msgs[i]);
        proof {
            assert(es.take(i - from).push(es[i - from]) =~= es.take(i - from + 1));
            assert(es[i - from] == msg_view(msgs@[i as int]));
            lemma_entries_snoc(es.take(i - from), es[i - from]);
            assert(out@ =~= seq![0x5bu8] + json_of_entries(es.take(i - from + 1)));
        }
        i = i + 1;
    }
    out.push(0x5d);
    proof {
        assert(es.take(n - from) =~= es);
        assert(out@ =~= json_of_batch(es));
    }
    out
}

} // verus!

// ---------------------------------------------------------------------------
// Strict parser: specification level.
// ---------------------------------------------------------------------------

verus! {

/// Index just past the maximal digit run starting at `i`.
pub open spec fn digits_end(s: Seq<u8>, i: int) -> int
    decreases s.len() - i when 0 <= i <= s.len()
{
    if i < s.len() && is_digit(s[i]) {
        digits_end(s, i + 1)
    } else {
        i
    }
}

/// The named single-character escapes, mapped back to their byte.
pub open spec fn unesc_named(e: u8) -> u8 {
    if e == 0x62 {
        0x08
    } else if e == 0x74 {
        0x09
    } else if e == 0x6e {
        0x0a
    } else if e == 0x66 {
        0x0c
    } else if e == 0x72 {
        0x0d
    } else {
        e
    }
}

/// What parsing a number at position `i` yields: optional minus, a maximal
/// nonempty digit run, value within the signed 64-bit range.
pub open spec fn parse_num_at(s: Seq<u8>, i: int) -> Option<(int, int)> {
    if 0 <= i <= s.len() {
        let neg = i < s.len() && s[i] == 0x2d;
        let j = if neg {
            i + 1
        } else {
            i
        };
        let e = digits_end(s, j);
        if e == j {
            None
        } else {
            let v0 = dec_val(s.subrange(j, e));
            let v = if neg {
                -v0
            } else {
                v0
            };
            if -9223372036854775808 <= v <= 9223372036854775807 {
                Some((v, e))
            } else {
                None
            }
        }
    } else {
        None
    }
}

/// What parsing a string body at position `i` (just after the opening quote)
/// yields: the unescaped bytes and the index just past the closing quote.
pub open spec fn parse_str_at(s: Seq<u8>, i: int) -> Option<(Seq<u8>, int)>
    decreases s.len() - i when 0 <= i <= s.len()
{
    if i >= s.len() {
        None
    } else if s[i] == 0x22 {
        Some((Seq::empty(), i + 1))
    } else if s[i] == 0x5c {
        if i + 2 > s.len() {
            None
        } else {
            let e = s[i + 1];
            if e == 0x22 || e == 0x5c || e == 0x62 || e == 0x74 || e == 0x6e || e == 0x66 || e
                == 0x72 {
                match parse_str_at(s, i + 2) {
                    None => None,
                    Some((t, j)) => Some((seq![unesc_named(e)] + t, j)),
                }
            } else if e == 0x75 {
                if i + 6 <= s.len() && s[i + 2] == 0x30 && s[i + 3] == 0x30 && is_hex_lower(
                    s[i + 4],
                ) && is_hex_lower(s[i + 5]) {
                    match parse_str_at(s, i + 6) {
                        None => None,
                        Some((t, j)) => Some(
                            (seq![(hex_val(s[i + 4]) * 16 + hex_val(s[i + 5])) as u8] + t, j),
                        ),
                    }
                } else {
                    None
                }
            } else {
                None
            }
        }
    } else if s[i] < 0x20 {
        None
    } else {
        match parse_str_at(s, i + 1) {
            None => None,
            Some((t, j)) => Some((seq![s[i]] + t, j)),
        }
    }
}

/// What parsing one `{"t":…,"m":"…"}` object at `i` yields: the timestamp,
/// the raw text bytes, and the index just past the closing brace.
pub open spec fn parse_obj_at(s: Seq<u8>, i: int) -> Option<((int, Seq<u8>), int)> {
    if 0 <= i && i + 5 <= s.len() && s.subrange(i, i + 5) == obj_open() {
        match parse_num_at(s, i + 5) {
            None => None,
            Some((t, j)) => {
                if 0 <= j && j + 6 <= s.len() && s.subrange(j, j + 6) == obj_mid() {
                    match parse_str_at(s, j + 6) {
                        None => None,
                        Some((m, k)) => {
                            if k < s.len() && s[k] == 0x7d {
                                Some(((t, m), k + 1))
                            } else {
                                None
                            }
                        },
                    }
                } else {
                    None
                }
            },
        }
    } else {
        None
    }
}

/// What parsing a comma-separated object list at `i` yields.
pub open spec fn parse_elems_at(s: Seq<u8>, i: int) -> Option<(Seq<(int, Seq<u8>)>, int)>
    decreases s.len() - i when 0 <= i <= s.len()
{
    match parse_obj_at(s, i) {
        None => None,
        Some((e0, j)) => {
            if j < s.len() && s[j] == 0x2c {
                if i < j {
                    match parse_elems_at(s, j + 1) {
                        None => None,
                        Some((rest, e)) => Some((seq![e0] + rest, e)),
                    }
                } else {
                    None
                }
            } else {
                Some((seq![e0], j))
            }
        },
    }
}

/// What parsing a whole batch yields: the full buffer must be consumed.
pub open spec fn parse_batch_spec(s: Seq<u8>) -> Option<Seq<(int, Seq<u8>)>> {
    if s.len() >= 2 && s[0] == 0x5b {
        if s.len() == 2 && s[1] == 0x5d {
            Some(Seq::empty())
        } else {
            match parse_elems_at(s, 1) {
                None => None,
                Some((es, j)) => {
                    if j == s.len() - 1 && s[j] == 0x5d {
                        Some(es)
                    } else {
                        None
                    }
                },
            }
        }
    } else {
        None
    }
}

/// UTF-8 decoding of every parsed text, `None` when any text is invalid.
pub open spec fn decode_entries(es: Seq<(int, Seq<u8>)>) -> Option<Seq<(int, Seq<char>)>> {
    if forall|k: int| 0 <= k < es.len() ==> #[trigger] valid_utf8(es[k].1) {
        Some(es.map_values(|e: (int, Seq<u8>)| (e.0, decode_utf8(e.1))))
    } else {
        None
    }
}

/// What a whole wire buffer means as a batch of messages.
pub open spec fn batch_from_json(s: Seq<u8>) -> Option<Seq<(int, Seq<char>)>> {
    match parse_batch_spec(s) {
        None => None,
        Some(es) => decode_entries(es),
    }
}

/// Each entry with its text encoded to UTF-8 bytes.
pub open spec fn entries_bytes(es: Seq<(int, Seq<char>)>) -> Seq<(int, Seq<u8>)> {
    es.map_values(|e: (int, Seq<char>)| (e.0, encode_utf8(e.1)))
}

} // verus!

// ---------------------------------------------------------------------------
// Strict parser: executable level.
// ---------------------------------------------------------------------------

verus! {

/// Parses a number at `i`, mirroring [`parse_num_at`].
fn parse_num(s: &Vec<u8>, i: usize) -> (r: Option<(i64, usize)>)
    requires
        i <= s@.len(),
    ensures
        match r {
            Some((v, j)) => parse_num_at(s@, i as int) == Some((v as int, j as int)) && i < j
                <= s@.len(),
            None => parse_num_at(s@, i as int) is None,
        },
{
    let n = s.len();
    let neg = i < n && s[i] == 0x2d;
    let j0: usize = if neg {
        i + 1
    } else {
        i
    };
    let mut k = j0;
    let mut acc: u64 = 0;
    let mut overflow = false;
    while k < n && 0x30 <= s[k] && s[k] <= 0x39
        invariant
            n == s@.len(),
            j0 <= k <= n,
            all_digits(s@.subrange(j0 as int, k as int)),
            digits_end(s@, j0 as int) == digits_end(s@, k as int),
            !overflow ==> acc == dec_val(s@.subrange(j0 as int, k as int)),
            overflow ==> dec_val(s@.subrange(j0 as int, k as int)) > u64::MAX,
        decreases n - k,
    {
        let d: u64 = (s[k] - 0x30) as u64;
        let ghost pre = s@.subrange(j0 as int, k as int);
        let ghost post = s@.subrange(j0 as int, k as int + 1);
        proof {
            assert(post.drop_last() =~= pre);
            assert(post.last() == s@[k as int]);
        }
        if !overflow {
            match acc.checked_mul(10) {
                Some(a) => match a.checked_add(d) {
                    Some(a2) => {
                        acc = a2;
                    },
                    None => {
                        overflow = true;
                    },
                },
                None => {
                    overflow = true;
                },
            }
            proof {
                if overflow {
                    assert(dec_val(post) > u64::MAX);
                }
            }
        } else {
            proof {
                assert(dec_val(post) > u64::MAX);
            }
        }
        k = k + 1;
    }
    proof {
        assert(digits_end(s@, k as int) == k as int);
    }
    if k == j0 {
        return None;
    }
    let ghost ds = s@.subrange(j0 as int, k as int);
    proof {
        if !overflow {
            crate::nums::lemma_dec_val_nonneg(ds);
        }
    }
    if overflow {
        return None;
    }
    if neg {
        if acc > 0x8000000000000000 {
            None
        } else if acc == 0x8000000000000000 {
            Some((i64::MIN, k))
        } else {
            Some((-(acc as i64), k))
        }
    } else {
        if acc > 0x7fffffffffffffff {
            None
        } else {
            Some((acc as i64, k))
        }
    }
}

/// Parses a string body at `i`, mirroring [`parse_str_at`].
fn parse_str(s: &Vec<u8>, i: usize) -> (r: Option<(Vec<u8>, usize)>)
    requires
        i <= s@.len(),
    ensures
        match r {
            Some((t, j)) => parse_str_at(s@, i as int) == Some((t@, j as int)) && i < j <= s@.len(),
            None => parse_str_at(s@, i as int) is None,
        },
    decreases s@.len() - i,
{
    let n = s.len();
    if i >= n {
        return None;
    }
    let b = s[i];
    if b == 0x22 {
        let t: Vec<u8> = Vec::new();
        proof {
            assert(t@ =~= Seq::<u8>::empty());
        }
        return Some((t, i + 1));
    }
    if b == 0x5c {
        if n - i < 2 {
            return None;
        }
        let e = s[i + 1];
        if e == 0x22 || e == 0x5c || e == 0x62 || e == 0x74 || e == 0x6e || e == 0x66 || e == 0x72 {
            let ub: u8 = if e == 0x62 {
                0x08
            } else if e == 0x74 {
                0x09
            } else if e == 0x6e {
                0x0a
            } else if e == 0x66 {
                0x0c
            } else if e == 0x72 {
                0x0d
            } else {
                e
            };
            match parse_str(s, i + 2) {
                None => None,
                Some((t, j)) => {
                    let mut t2 = t;
                    t2.insert(0, ub);
                    proof {
                        assert(t2@ =~= seq![unesc_named(e)] + t2@.subrange(1, t2@.len() as int));
                    }
                    Some((t2, j))
                },
            }
        } else if e == 0x75 {
            if n - i >= 6 && s[i + 2] == 0x30 && s[i + 3] == 0x30 {
                let h1 = s[i + 4];
                let h2 = s[i + 5];
                let hex1 = (0x30 <= h1 && h1 <= 0x39) || (0x61 <= h1 && h1 <= 0x66);
                let hex2 = (0x30 <= h2 && h2 <= 0x39) || (0x61 <= h2 && h2 <= 0x66);
                if hex1 && hex2 {
                    let v1: u8 = if h1 <= 0x39 {
                        h1 - 0x30
                    } else {
                        h1 - 0x61 + 10
                    };
                    let v2: u8 = if h2 <= 0x39 {
                        h2 - 0x30
                    } else {
                        h2 - 0x61 + 10
                    };
                    let ub: u8 = v1 * 16 + v2;
                    match parse_str(s, i + 6) {
                        None => None,
                        Some((t, j)) => {
                            let mut t2 = t;
                            t2.insert(0, ub);
                            proof {
                                assert(ub == (hex_val(s@[i as int + 4]) * 16 + hex_val(
                                    s@[i as int + 5],
                                )) as u8);
                                assert(t2@ =~= seq![ub] + t2@.subrange(1, t2@.len() as int));
                            }
                            Some((t2, j))
                        },
                    }
                } else {
                    None
                }
            } else {
                None
            }
        } else {
            None
        }
    } else if b < 0x20 {
        None
    } else {
        match parse_str(s, i + 1) {
            None => None,
            Some((t, j)) => {
                let mut t2 = t;
                t2.insert(0, b);
                proof {
                    assert(t2@ =~= seq![b] + t2@.subrange(1, t2@.len() as int));
                }
                Some((t2, j))
            },
        }
    }
}

/// Parses one object at `i`, mirroring [`parse_obj_at`].
fn parse_obj(s: &Vec<u8>, i: usize) -> (r: Option<((i64, Vec<u8>), usize)>)
    requires
        i <= s@.len(),
    ensures
        match r {
            Some(((t, m), j)) => parse_obj_at(s@, i as int) == Some(((t as int, m@), j as int)) && i
                < j <= s@.len(),
            None => parse_obj_at(s@, i as int) is None,
        },
{
    let n = s.len();
    if n - i < 5 {
        return None;
    }
    if !(s[i] == 0x7b && s[i + 1] == 0x22 && s[i + 2] == 0x74 && s[i + 3] == 0x22 && s[i + 4]
        == 0x3a) {
        proof {
            assert(s@.subrange(i as int, i as int + 5) != obj_open()) by {
                if s@.subrange(i as int, i as int + 5) == obj_open() {
                    assert(s@[i as int] == s@.subrange(i as int, i as int + 5)[0]);
                    assert(s@[i as int + 1] == s@.subrange(i as int, i as int + 5)[1]);
                    assert(s@[i as int + 2] == s@.subrange(i as int, i as int + 5)[2]);
                    assert(s@[i as int + 3] == s@.subrange(i as int, i as int + 5)[3]);
                    assert(s@[i as int + 4] == s@.subrange(i as int, i as int + 5)[4]);
                }
            }
        }
        return None;
    }
    proof {
        assert(s@.subrange(i as int, i as int + 5) =~= obj_open());
    }
    let (t, j) = match parse_num(s, i + 5) {
        None => {
            return None;
        },
        Some(p) => p,
    };
    if n - j < 6 {
        return None;
    }
    if !(s[j] == 0x2c && s[j + 1] == 0x22 && s[j + 2] == 0x6d && s[j + 3] == 0x22 && s[j + 4]
        == 0x3a && s[j + 5] == 0x22) {
        proof {
            assert(s@.subrange(j as int, j as int + 6) != obj_mid()) by {
                if s@.subrange(j as int, j as int + 6) == obj_mid() {
                    assert(s@[j as int] == s@.subrange(j as int, j as int + 6)[0]);
                    assert(s@[j as int + 1] == s@.subrange(j as int, j as int + 6)[1]);
                    assert(s@[j as int + 2] == s@.subrange(j as int, j as int + 6)[2]);
                    assert(s@[j as int + 3] == s@.subrange(j as int, j as int + 6)[3]);
                    assert(s@[j as int + 4] == s@.subrange(j as int, j as int + 6)[4]);
                    assert(s@[j as int + 5] == s@.subrange(j as int, j as int + 6)[5]);
                }
            }
        }
        return None;
    }
    proof {
        assert(s@.subrange(j as int, j as int + 6) =~= obj_mid());
    }
    let (m, k) = match parse_str(s, j + 6) {
        None => {
            return None;
        },
        Some(p) => p,
    };
    if k < n && s[k] == 0x7d {
        Some(((t, m), k + 1))
    } else {
        None
    }
}

} // verus!

verus! {

/// Parses a comma-separated object list at `i` and decodes each text,
/// mirroring [`parse_elems_at`] followed by [`decode_entries`].
fn parse_elems(s: &Vec<u8>, i: usize) -> (r: Option<(Vec<CompactMessage>, usize)>)
    requires
        i <= s@.len(),
    ensures
        match r {
            Some((b, j)) => parse_elems_at(s@, i as int) matches Some(p) && p.1 == j as int
                && decode_entries(p.0) == Some(batch_view(b@)) && i < j <= s@.len(),
            None => parse_elems_at(s@, i as int) is None || (parse_elems_at(s@, i as int)
                matches Some(p) && decode_entries(p.0) is None),
        },
    decreases s@.len() - i,
{
    let n = s.len();
    let ((t, mb), j) = match parse_obj(s, i) {
        None => {
            return None;
        },
        Some(p) => p,
    };
    let ghost e0: (int, Seq<u8>) = (t as int, mb@);
    let ghost mbv = mb@;
    let m_str = match string_from_utf8(mb) {
        Some(x) => x,
        None => {
            proof {
                match parse_elems_at(s@, i as int) {
                    Some(p) => {
                        assert(p.0[0] == e0);
                        assert(!valid_utf8(p.0[0].1));
                        assert(decode_entries(p.0) is None);
                    },
                    None => {},
                }
            }
            return None;
        },
    };
    let msg = CompactMessage { t, m: m_str };
    if j < n && s[j] == 0x2c {
        match parse_elems(s, j + 1) {
            None => {
                proof {
                    match parse_elems_at(s@, j as int + 1) {
                        Some(p2) => {
                            let whole = parse_elems_at(s@, i as int);
                            assert(whole == Some((seq![e0] + p2.0, p2.1)));
                            assert(decode_entries(p2.0) is None);
                            let k = choose|k: int|
                                !(0 <= k < p2.0.len() ==> #[trigger] valid_utf8(p2.0[k].1));
                            assert((seq![e0] + p2.0)[k + 1] == p2.0[k]);
                            assert(!valid_utf8((seq![e0] + p2.0)[k + 1].1));
                            assert(decode_entries(seq![e0] + p2.0) is None);
                        },
                        None => {
                            assert(parse_elems_at(s@, i as int) is None);
                        },
                    }
                }
                return None;
            },
            Some((b2, e)) => {
                let ghost rest = choose|p2: (Seq<(int, Seq<u8>)>, int)|
                    parse_elems_at(s@, j as int + 1) == Some(p2) && p2.1 == e as int
                        && decode_entries(p2.0) == Some(batch_view(b2@));
                let mut b3 = b2;
                b3.insert(0, msg);
                proof {
                    assert(parse_elems_at(s@, i as int) == Some((seq![e0] + rest.0, rest.1)));
                    let combined = seq![e0] + rest.0;
                    assert(forall|k: int|
                        0 <= k < rest.0.len() ==> #[trigger] valid_utf8(rest.0[k].1));
                    assert forall|k: int| 0 <= k < combined.len() implies #[trigger] valid_utf8(
                        combined[k].1,
                    ) by {
                        if k == 0 {
                            assert(combined[0] == e0);
                        } else {
                            assert(combined[k] == rest.0[k - 1]);
                        }
                    }
                    assert(decode_entries(combined) matches Some(dc));
                    assert(decode_entries(combined)->Some_0 =~= batch_view(b3@)) by {
                        let dc = decode_entries(combined)->Some_0;
                        let bv = batch_view(b3@);
                        assert(dc.len() == combined.len());
                        assert(b3@.len() == 1 + b2@.len());
                        assert(batch_view(b2@) == decode_entries(rest.0)->Some_0);
                        assert(batch_view(b2@).len() == rest.0.len());
                        assert(batch_view(b2@).len() == b2@.len());
                        assert(bv.len() == dc.len());
                        assert forall|k: int| 0 <= k < dc.len() implies dc[k] == bv[k] by {
                            if k == 0 {
                                assert(combined[0] == e0);
                                assert(b3@[0] == msg);
                                assert(m_str@ == decode_utf8(mbv));
                            } else {
                                assert(combined[k] == rest.0[k - 1]);
                                assert(b3@[k] == b2@[k - 1]);
                                assert(batch_view(b2@)[k - 1] == msg_view(b2@[k - 1]));
                                assert(decode_entries(rest.0)->Some_0[k - 1] == (
                                    rest.0[k - 1].0,
                                    decode_utf8(rest.0[k - 1].1),
                                ));
                            }
                        }
                    }
                }
                Some((b3, e))
            },
        }
    } else {
        let mut b: Vec<CompactMessage> = Vec::new();
        b.push(msg);
        proof {
            assert(parse_elems_at(s@, i as int) == Some((seq![e0], j as int)));
            let single = seq![e0];
            assert(forall|k: int| 0 <= k < single.len() ==> #[trigger] valid_utf8(single[k].1));
            assert(decode_entries(single) matches Some(dc));
            assert(decode_entries(single)->Some_0 =~= batch_view(b@)) by {
                assert(single[0] == e0);
                assert(b@[0] == msg);
                assert(m_str@ == decode_utf8(mbv));
                assert(batch_view(b@)[0] == msg_view(msg));
                assert(decode_entries(single)->Some_0[0] == (e0.0, decode_utf8(e0.1)));
            }
        }
        Some((b, j))
    }
}

/// Parses a whole wire buffer as a batch, mirroring [`batch_from_json`].
pub fn parse_batch(data: &Vec<u8>) -> (r: Option<Vec<CompactMessage>>)
    ensures
        match r {
            Some(b) => batch_from_json(data@) == Some(batch_view(b@)),
            None => batch_from_json(data@) is None,
        },
{
    let n = data.len();
    if n < 2 || data[0] != 0x5b {
        return None;
    }
    if n == 2 {
        if data[1] == 0x5d {
            let b: Vec<CompactMessage> = Vec::new();
            proof {
                assert(parse_batch_spec(data@) == Some(Seq::<(int, Seq<u8>)>::empty()));
                assert(decode_entries(Seq::<(int, Seq<u8>)>::empty()) matches Some(dc));
                assert(decode_entries(Seq::<(int, Seq<u8>)>::empty())->Some_0 =~= batch_view(b@));
            }
            return Some(b);
        } else {
            return None;
        }
    }
    match parse_elems(data, 1) {
        None => {
            proof {
                match parse_elems_at(data@, 1) {
                    Some(p) => {
                        assert(batch_from_json(data@) is None);
                    },
                    None => {},
                }
            }
            None
        },
        Some((b, j)) => {
            if j == n - 1 && data[j] == 0x5d {
                Some(b)
            } else {
                None
            }
        },
    }
}

} // verus!

// ---------------------------------------------------------------------------
// Completeness: the strict parser accepts everything the serializer emits.
// ---------------------------------------------------------------------------

verus! {

proof fn lemma_eq_slice(s: Seq<u8>, i: int, t: Seq<u8>, a: int, b: int)
    requires
        0 <= i,
        i + t.len() <= s.len(),
        s.subrange(i, i + t.len()) == t,
        0 <= a <= b <= t.len(),
    ensures
        s.subrange(i + a, i + b) == t.subrange(a, b),
{
    assert forall|k: int| 0 <= k < b - a implies s.subrange(i + a, i + b)[k] == t.subrange(a, b)[k]
    by {
        assert(s.subrange(i, i + t.len())[a + k] == s[i + a + k]);
    }
    assert(s.subrange(i + a, i + b) =~= t.subrange(a, b));
}

proof fn lemma_eq_byte(s: Seq<u8>, i: int, t: Seq<u8>, a: int)
    requires
        0 <= i,
        i + t.len() <= s.len(),
        s.subrange(i, i + t.len()) == t,
        0 <= a < t.len(),
    ensures
        s[i + a] == t[a],
{
    assert(s.subrange(i, i + t.len())[a] == s[i + a]);
}

proof fn lemma_digits_end_of(s: Seq<u8>, i: int, e: int)
    requires
        0 <= i <= e <= s.len(),
        forall|k: int| i <= k < e ==> is_digit(#[trigger] s[k]),
        e < s.len() ==> !is_digit(s[e]),
    ensures
        digits_end(s, i) == e,
    decreases e - i,
{
    if i < e {
        assert(is_digit(s[i]));
        lemma_digits_end_of(s, i + 1, e);
    }
}

proof fn lemma_parse_num_of(s: Seq<u8>, i: int, t: int)
    requires
        -9223372036854775808 <= t <= 9223372036854775807,
        0 <= i,
        i + dec_i64(t).len() <= s.len(),
        s.subrange(i, i + dec_i64(t).len()) == dec_i64(t),
        i + dec_i64(t).len() < s.len() ==> !is_digit(s[i + dec_i64(t).len()]),
    ensures
        parse_num_at(s, i) == Some((t, i + dec_i64(t).len())),
{
    let d = dec_i64(t);
    let l = d.len() as int;
    if t < 0 {
        let m = (-t) as nat;
        lemma_dec_digits_are_digits(m);
        lemma_dec_val_of_digits(m);
        assert(d == seq![0x2du8] + dec_digits(m));
        assert(l == 1 + dec_digits(m).len());
        lemma_eq_byte(s, i, d, 0);
        assert(d[0] == 0x2d);
        lemma_eq_slice(s, i, d, 1, l);
        assert(d.subrange(1, l) =~= dec_digits(m));
        assert forall|k: int| i + 1 <= k < i + l implies is_digit(#[trigger] s[k]) by {
            assert(s.subrange(i + 1, i + l)[k - i - 1] == s[k]);
            assert(is_digit(dec_digits(m)[k - i - 1]));
        }
        lemma_digits_end_of(s, i + 1, i + l);
        assert(dec_val(s.subrange(i + 1, i + l)) == m);
        assert(parse_num_at(s, i) == Some((t, i + l)));
    } else {
        let m = t as nat;
        lemma_dec_digits_are_digits(m);
        lemma_dec_val_of_digits(m);
        assert(d == dec_digits(m));
        lemma_eq_byte(s, i, d, 0);
        assert(is_digit(d[0]));
        assert(s[i] != 0x2d);
        lemma_eq_slice(s, i, d, 0, l);
        assert(d.subrange(0, l) =~= d);
        assert(s.subrange(i, i + l) == d);
        assert forall|k: int| i <= k < i + l implies is_digit(#[trigger] s[k]) by {
            assert(s.subrange(i, i + l)[k - i] == s[k]);
            assert(is_digit(d[k - i]));
        }
        lemma_digits_end_of(s, i, i + l);
        assert(dec_val(s.subrange(i, i + l)) == m);
        assert(parse_num_at(s, i) == Some((t, i + l)));
    }
}

proof fn lemma_parse_str_of(m: Seq<u8>, s: Seq<u8>, i: int)
    requires
        0 <= i,
        i + esc(m).len() + 1 <= s.len(),
        s.subrange(i, i + esc(m).len() + 1) == esc(m) + seq![0x22u8],
    ensures
        parse_str_at(s, i) == Some((m, i + esc(m).len() + 1)),
    decreases m.len(),
{
    let em = esc(m);
    let w = em + seq![0x22u8];
    let l = em.len() as int;
    if m.len() == 0 {
        assert(em =~= Seq::<u8>::empty());
        lemma_eq_byte(s, i, w, 0);
        assert(w[0] == 0x22);
        assert(parse_str_at(s, i) == Some((Seq::<u8>::empty(), i + 1)));
        assert(m =~= Seq::<u8>::empty());
    } else {
        let b = m[0];
        let eb = esc_byte(b);
        let rest = m.drop_first();
        assert(em == eb + esc(rest));
        let k = eb.len() as int;
        assert(l == k + esc(rest).len());
        lemma_eq_slice(s, i, w, k, l + 1);
        assert(w.subrange(k, l + 1) =~= esc(rest) + seq![0x22u8]);
        lemma_parse_str_of(rest, s, i + k);
        assert forall|a: int| 0 <= a < k implies s[i + a] == eb[a] by {
            lemma_eq_byte(s, i, w, a);
            assert(w[a] == eb[a]);
        }
        assert(seq![b] + rest =~= m);
        if b == 0x22 || b == 0x5c {
            assert(eb =~= seq![0x5cu8, b]);
            assert(s[i] == 0x5c && s[i + 1] == b);
            assert(unesc_named(b) == b);
            assert(parse_str_at(s, i) == Some((m, i + l + 1)));
        } else if b == 0x08 {
            assert(s[i] == 0x5c && s[i + 1] == 0x62);
            assert(parse_str_at(s, i) == Some((m, i + l + 1)));
        } else if b == 0x09 {
            assert(s[i] == 0x5c && s[i + 1] == 0x74);
            assert(parse_str_at(s, i) == Some((m, i + l + 1)));
        } else if b == 0x0a {
            assert(s[i] == 0x5c && s[i + 1] == 0x6e);
            assert(parse_str_at(s, i) == Some((m, i + l + 1)));
        } else if b == 0x0c {
            assert(s[i] == 0x5c && s[i + 1] == 0x66);
            assert(parse_str_at(s, i) == Some((m, i + l + 1)));
        } else if b == 0x0d {
            assert(s[i] == 0x5c && s[i + 1] == 0x72);
            assert(parse_str_at(s, i) == Some((m, i + l + 1)));
        } else if b < 0x20 {
            let hi = b as int / 16;
            let lo = b as int % 16;
            assert(0 <= hi < 16 && 0 <= lo < 16);
            assert(s[i] == 0x5c && s[i + 1] == 0x75 && s[i + 2] == 0x30 && s[i + 3] == 0x30);
            assert(s[i + 4] == hex_digit(hi) && s[i + 5] == hex_digit(lo));
            assert(is_hex_lower(hex_digit(hi)) && hex_val(hex_digit(hi)) == hi);
            assert(is_hex_lower(hex_digit(lo)) && hex_val(hex_digit(lo)) == lo);
            assert(hi * 16 + lo == b) by (nonlinear_arith)
                requires
                    hi == b as int / 16,
                    lo == b as int % 16,
            ;
            assert((hex_val(s[i + 4]) * 16 + hex_val(s[i + 5])) as u8 == b);
            assert(parse_str_at(s, i) == Some((m, i + l + 1)));
        } else {
            assert(eb =~= seq![b]);
            assert(s[i] == b);
            assert(parse_str_at(s, i) == Some((m, i + l + 1)));
        }
    }
}

proof fn lemma_entry_len(e: (int, Seq<char>))
    ensures
        json_of_entry(e).len() >= 14,
{
    if e.0 < 0 {
        lemma_dec_digits_are_digits((-e.0) as nat);
    } else {
        lemma_dec_digits_are_digits(e.0 as nat);
    }
}

proof fn lemma_parse_obj_of(e: (int, Seq<char>), s: Seq<u8>, i: int)
    requires
        -9223372036854775808 <= e.0 <= 9223372036854775807,
        0 <= i,
        i + json_of_entry(e).len() <= s.len(),
        s.subrange(i, i + json_of_entry(e).len()) == json_of_entry(e),
    ensures
        parse_obj_at(s, i) == Some(((e.0, encode_utf8(e.1)), i + json_of_entry(e).len())),
        json_of_entry(e).len() >= 14,
{
    let w = json_of_entry(e);
    let d = dec_i64(e.0);
    let eb = esc(encode_utf8(e.1));
    let l = w.len() as int;
    let dl = d.len() as int;
    let el = eb.len() as int;
    assert(w == obj_open() + d + obj_mid() + eb + obj_close());
    assert(l == 13 + dl + el);
    if e.0 < 0 {
        lemma_dec_digits_are_digits((-e.0) as nat);
    } else {
        lemma_dec_digits_are_digits(e.0 as nat);
    }
    assert(dl >= 1);
    lemma_eq_slice(s, i, w, 0, 5);
    assert(w.subrange(0, 5) =~= obj_open());
    lemma_eq_slice(s, i, w, 5, 5 + dl);
    assert(w.subrange(5, 5 + dl) =~= d);
    lemma_eq_byte(s, i, w, 5 + dl);
    assert(w[5 + dl] == 0x2c);
    lemma_parse_num_of(s, i + 5, e.0);
    lemma_eq_slice(s, i, w, 5 + dl, 11 + dl);
    assert(w.subrange(5 + dl, 11 + dl) =~= obj_mid());
    lemma_eq_slice(s, i, w, 11 + dl, 12 + dl + el);
    assert(w.subrange(11 + dl, 12 + dl + el) =~= eb + seq![0x22u8]);
    lemma_parse_str_of(encode_utf8(e.1), s, i + 11 + dl);
    lemma_eq_byte(s, i, w, l - 1);
    assert(w[l - 1] == 0x7d);
    assert(parse_obj_at(s, i) == Some(((e.0, encode_utf8(e.1)), i + l)));
}

proof fn lemma_parse_elems_of(es: Seq<(int, Seq<char>)>, s: Seq<u8>, i: int)
    requires
        es.len() >= 1,
        forall|k: int|
            0 <= k < es.len() ==> -9223372036854775808 <= (#[trigger] es[k]).0
                <= 9223372036854775807,
        0 <= i,
        i + json_of_entries(es).len() < s.len(),
        s.subrange(i, i + json_of_entries(es).len()) == json_of_entries(es),
        s[i + json_of_entries(es).len()] == 0x5d,
    ensures
        parse_elems_at(s, i) == Some((entries_bytes(es), i + json_of_entries(es).len())),
    decreases es.len(),
{
    let w = json_of_entries(es);
    let l = w.len() as int;
    let e0 = es[0];
    let w0 = json_of_entry(e0);
    let l0 = w0.len() as int;
    if es.len() == 1 {
        assert(w == w0);
        lemma_parse_obj_of(e0, s, i);
        assert(s[i + l] == 0x5d);
        assert(0x5d != 0x2c);
        assert(entries_bytes(es) =~= seq![(e0.0, encode_utf8(e0.1))]);
        assert(parse_elems_at(s, i) == Some((entries_bytes(es), i + l)));
    } else {
        let rest = es.drop_first();
        let wr = json_of_entries(rest);
        assert(w == w0 + seq![0x2cu8] + wr);
        assert(l == l0 + 1 + wr.len());
        lemma_eq_slice(s, i, w, 0, l0);
        assert(w.subrange(0, l0) =~= w0);
        lemma_parse_obj_of(e0, s, i);
        lemma_eq_byte(s, i, w, l0);
        assert(w[l0] == 0x2c);
        lemma_eq_slice(s, i, w, l0 + 1, l);
        assert(w.subrange(l0 + 1, l) =~= wr);
        assert(s[i + l] == 0x5d);
        lemma_parse_elems_of(rest, s, i + l0 + 1);
        assert(parse_elems_at(s, i + l0 + 1) == Some((entries_bytes(rest), i + l)));
        assert(parse_elems_at(s, i) == Some(
            (seq![(e0.0, encode_utf8(e0.1))] + entries_bytes(rest), i + l),
        ));
        assert(seq![(e0.0, encode_utf8(e0.1))] + entries_bytes(rest) =~= entries_bytes(es));
    }
}

/// Parsing inverts serialization: the wire form of any batch whose
/// timestamps fit in 64 bits parses back to exactly that batch.
pub proof fn lemma_parse_of_json_batch(es: Seq<(int, Seq<char>)>)
    requires
        forall|k: int|
            0 <= k < es.len() ==> -9223372036854775808 <= (#[trigger] es[k]).0
                <= 9223372036854775807,
    ensures
        batch_from_json(json_of_batch(es)) == Some(es),
{
    let s = json_of_batch(es);
    let w = json_of_entries(es);
    let l = w.len() as int;
    assert(s.len() == l + 2);
    if es.len() == 0 {
        assert(w =~= Seq::<u8>::empty());
        assert(s =~= seq![0x5bu8, 0x5du8]);
        assert(s[0] == 0x5b && s[1] == 0x5d);
        assert(parse_batch_spec(s) == Some(Seq::<(int, Seq<u8>)>::empty()));
        assert(decode_entries(Seq::<(int, Seq<u8>)>::empty()) matches Some(dc));
        assert(decode_entries(Seq::<(int, Seq<u8>)>::empty())->Some_0 =~= es);
    } else {
        assert(s[0] == 0x5b);
        assert(s.subrange(1, 1 + l) =~= w);
        assert(s[1 + l] == 0x5d);
        lemma_entry_len(es[0]);
        assert(l >= 14);
        assert(s.len() > 2);
        lemma_parse_elems_of(es, s, 1);
        assert(parse_elems_at(s, 1) == Some((entries_bytes(es), 1 + l)));
        assert(1 + l == s.len() - 1);
        assert(parse_batch_spec(s) == Some(entries_bytes(es)));
        let eb = entries_bytes(es);
        assert forall|k: int| 0 <= k < eb.len() implies #[trigger] valid_utf8(eb[k].1) by {
            assert(eb[k] == (es[k].0, encode_utf8(es[k].1)));
            vstd::utf8::encode_utf8_valid_utf8(es[k].1);
        }
        assert(decode_entries(eb) matches Some(dc));
        assert(decode_entries(eb)->Some_0 =~= es) by {
            let dc = decode_entries(eb)->Some_0;
            assert forall|k: int| 0 <= k < es.len() implies dc[k] == es[k] by {
                assert(eb[k] == (es[k].0, encode_utf8(es[k].1)));
                vstd::utf8::encode_utf8_decode_utf8(es[k].1);
            }
        }
    }
}

} // verus!
