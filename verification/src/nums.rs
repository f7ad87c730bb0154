//! Decimal codec: 64-bit integers to and from ASCII digit strings, the form
//! used for timestamps in records and in the batch wire format.

use vstd::prelude::*;

verus! {

/// ASCII decimal digit.
pub open spec fn is_digit(b: u8) -> bool {
    0x30 <= b <= 0x39
}

/// The decimal digits of a natural number, most significant first.
pub open spec fn dec_digits(n: nat) -> Seq<u8>
    decreases n,
{
    if n < 10 {
        seq![(0x30 + n) as u8]
    } else {
        dec_digits(n / 10).push((0x30 + n % 10) as u8)
    }
}

/// The decimal rendering of a signed value: optional minus sign, then digits.
pub open spec fn dec_i64(v: int) -> Seq<u8> {
    if v < 0 {
        seq![0x2du8] + dec_digits((-v) as nat)
    } else {
        dec_digits(v as nat)
    }
}

/// The numeric value of a digit string.
pub open spec fn dec_val(s: Seq<u8>) -> int
    decreases s.len(),
{
    if s.len() == 0 {
        0
    } else {
        dec_val(s.drop_last()) * 10 + (s.last() - 0x30)
    }
}

pub open spec fn all_digits(s: Seq<u8>) -> bool {
    forall|i: int| 0 <= i < s.len() ==> is_digit(#[trigger] s[i])
}

/// What parsing a whole byte string as a signed 64-bit decimal yields:
/// an optional leading minus, at least one digit, nothing else, and a value
/// within the 64-bit signed range.
pub open spec fn parse_i64_spec(s: Seq<u8>) -> Option<int> {
    let neg = s.len() > 0 && s[0] == 0x2d;
    let ds = if neg {
        s.subrange(1, s.len() as int)
    } else {
        s
    };
    if ds.len() == 0 || !all_digits(ds) {
        None
    } else {
        let v = if neg {
            -dec_val(ds)
        } else {
            dec_val(ds)
        };
        if -9223372036854775808 <= v <= 9223372036854775807 {
            Some(v)
        } else {
            None
        }
    }
}

pub proof fn lemma_dec_digits_are_digits(n: nat)
    ensures
        all_digits(dec_digits(n)),
        dec_digits(n).len() >= 1,
    decreases n,
{
    if n >= 10 {
        lemma_dec_digits_are_digits(n / 10);
    }
}

pub proof fn lemma_dec_val_of_digits(n: nat)
    ensures
        dec_val(dec_digits(n)) == n,
    decreases n,
{
    if n < 10 {
        assert((0x30 + n) as u8 == 0x30 + n);
        assert(dec_digits(n).drop_last() =~= Seq::<u8>::empty());
        assert(dec_digits(n).last() == (0x30 + n) as u8);
        assert(dec_val(dec_digits(n)) == dec_val(Seq::<u8>::empty()) * 10 + (dec_digits(n).last()
            - 0x30));
        assert(dec_val(dec_digits(n)) == n);
    } else {
        lemma_dec_val_of_digits(n / 10);
        assert((0x30 + n % 10) as u8 == 0x30 + n % 10);
        assert(dec_digits(n).drop_last() =~= dec_digits(n / 10));
        assert(dec_digits(n).last() == (0x30 + n % 10) as u8);
        assert(dec_val(dec_digits(n)) == dec_val(dec_digits(n / 10)) * 10 + (dec_digits(n).last()
            - 0x30));
        assert(n / 10 * 10 + n % 10 == n) by (nonlinear_arith);
        assert(dec_val(dec_digits(n)) == n);
    }
}

pub proof fn lemma_dec_val_nonneg(s: Seq<u8>)
    requires
        all_digits(s),
    ensures
        dec_val(s) >= 0,
    decreases s.len(),
{
    if s.len() > 0 {
        assert(all_digits(s.drop_last()));
        lemma_dec_val_nonneg(s.drop_last());
    }
}

/// Parsing inverts rendering on every 64-bit value.
pub proof fn lemma_parse_of_dec_i64(v: int)
    requires
        -9223372036854775808 <= v <= 9223372036854775807,
    ensures
        parse_i64_spec(dec_i64(v)) == Some(v),
{
    if v < 0 {
        let m = (-v) as nat;
        lemma_dec_digits_are_digits(m);
        lemma_dec_val_of_digits(m);
        let s = dec_i64(v);
        assert(s[0] == 0x2d);
        assert(s.subrange(1, s.len() as int) =~= dec_digits(m));
    } else {
        let m = v as nat;
        lemma_dec_digits_are_digits(m);
        lemma_dec_val_of_digits(m);
        let s = dec_i64(v);
        assert(is_digit(s[0]));
    }
}

/// Every byte of a decimal rendering is ASCII.
pub proof fn lemma_dec_ascii(v: int)
    ensures
        forall|k: int| 0 <= k < dec_i64(v).len() ==> dec_i64(v)[k] < 0x80,
{
    if v < 0 {
        lemma_dec_digits_are_digits((-v) as nat);
        assert forall|k: int| 0 <= k < dec_i64(v).len() implies dec_i64(v)[k] < 0x80 by {
            if k > 0 {
                assert(dec_i64(v)[k] == dec_digits((-v) as nat)[k - 1]);
                assert(is_digit(dec_digits((-v) as nat)[k - 1]));
            }
        }
    } else {
        lemma_dec_digits_are_digits(v as nat);
        assert forall|k: int| 0 <= k < dec_i64(v).len() implies dec_i64(v)[k] < 0x80 by {
            assert(is_digit(dec_digits(v as nat)[k]));
        }
    }
}

/// Appends the decimal digits of `n` to `out`.
pub(crate) fn push_dec_digits(n: u64, out: &mut Vec<u8>)
    ensures
        final(out)@ == old(out)@ + dec_digits(n as nat),
    decreases n,
{
    if n < 10 {
        out.push(0x30 + n as u8);
        proof {
            assert(final(out)@ =~= old(out)@ + dec_digits(n as nat));
        }
    } else {
        push_dec_digits(n / 10, out);
        out.push(0x30 + (n % 10) as u8);
        proof {
            assert(final(out)@ =~= old(out)@ + dec_digits(n as nat));
        }
    }
}

/// The decimal rendering of a signed 64-bit value as ASCII bytes.
pub fn i64_to_dec(v: i64) -> (r: Vec<u8>)
    ensures
        r@ == dec_i64(v as int),
{
    let mut out: Vec<u8> = Vec::new();
    if v < 0 {
        out.push(0x2d);
        let mag: u64 = ((-(v + 1)) as u64) + 1;
        proof {
            assert(mag == -(v as int));
        }
        push_dec_digits(mag, &mut out);
        proof {
            assert(out@ =~= dec_i64(v as int));
        }
    } else {
        push_dec_digits(v as u64, &mut out);
        proof {
            assert(out@ =~= dec_i64(v as int));
        }
    }
    out
}

/// Parses a whole byte string as a signed 64-bit decimal, mirroring
/// [`parse_i64_spec`].
pub fn parse_i64_bytes(s: &[u8]) -> (r: Option<i64>)
    ensures
        match r {
            Some(v) => parse_i64_spec(s@) == Some(v as int),
            None => parse_i64_spec(s@) is None,
        },
{
    let n = s.len();
    let neg = n > 0 && *vstd::slice::slice_index_get(s, 0) == 0x2d;
    let start: usize = if neg {
        1
    } else {
        0
    };
    let ghost ds = if neg {
        s@.subrange(1, s@.len() as int)
    } else {
        s@
    };
    if n == start {
        return None;
    }
    let mut acc: u64 = 0;
    let mut overflow = false;
    let mut i: usize = start;
    while i < n
        invariant
            n == s@.len(),
            start <= i <= n,
            start == if neg { 1int } else { 0int },
            neg == (s@.len() > 0 && s@[0] == 0x2d),
            ds == if neg { s@.subrange(1, s@.len() as int) } else { s@ },
            all_digits(s@.subrange(start as int, i as int)),
            !overflow ==> acc == dec_val(s@.subrange(start as int, i as int)),
            overflow ==> dec_val(s@.subrange(start as int, i as int)) > u64::MAX,
        decreases n - i,
    {
        let b = *vstd::slice::slice_index_get(s, i);
        if !(0x30 <= b && b <= 0x39) {
            proof {
                assert(b == s@[i as int]);
                assert(ds[i - start] == s@[i as int]);
                assert(!is_digit(ds[i - start]));
                assert(!all_digits(ds));
                let ghost sneg = s@.len() > 0 && s@[0] == 0x2d;
                assert(sneg == neg);
                let ghost sds = if sneg {
                    s@.subrange(1, s@.len() as int)
                } else {
                    s@
                };
                assert(sds == ds);
                assert(parse_i64_spec(s@) is None);
            }
            return None;
        }
        let d: u64 = (b - 0x30) as u64;
        let ghost pre = s@.subrange(start as int, i as int);
        let ghost post = s@.subrange(start as int, i as int + 1);
        proof {
            assert(post.drop_last() =~= pre);
            assert(post.last() == s@[i as int]);
        }
        if !overflow {
            match acc.checked_mul(10) {
                Some(a) => match a.checked_add(d) {
                    Some(a2) => {
                        acc = a2;
                    },
                    None => {
                        overflow = true;
                    },
                },
                None => {
                    overflow = true;
                },
            }
            proof {
                if overflow {
                    assert(dec_val(post) == dec_val(pre) * 10 + (s@[i as int] - 0x30));
                    assert(dec_val(post) > u64::MAX);
                }
            }
        } else {
            proof {
                assert(dec_val(post) == dec_val(pre) * 10 + (s@[i as int] - 0x30));
                assert(dec_val(pre) > u64::MAX);
                assert(dec_val(post) > u64::MAX);
            }
        }
        i = i + 1;
    }
    proof {
        assert(s@.subrange(start as int, n as int) =~= ds);
    }
    if overflow {
        return None;
    }
    if neg {
        if acc > 0x8000000000000000 {
            None
        } else if acc == 0x8000000000000000 {
            Some(i64::MIN)
        } else {
            Some(-(acc as i64))
        }
    } else {
        if acc > 0x7fffffffffffffff {
            None
        } else {
            Some(acc as i64)
        }
    }
}

} // verus!
