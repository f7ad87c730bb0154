//! Identity and invite codec: seed validation, fresh identities, and the
//! `ghost://<address>#<shared_key>` invite URL format. Deriving the public
//! address from a seed is the key backend's job, outside this crate; the
//! functions here take or return addresses as plain strings.

use crate::aead::random_bytes;
use crate::b64::{b64u_of, b64u_parse};
use crate::crypto::{from_base64_url, generate_key, to_base64_url};
use crate::errors::ProtocolError;
use crate::strutil::to_char_vec;
use crate::types::{IdentityOutput, InviteOutput, ParsedInvite};
use vstd::prelude::*;

verus! {

/// A local identity: the 32-byte seed the key backend derives the signing
/// keypair and public address from.
pub struct Keypair {
    pub seed: Vec<u8>,
}

impl Keypair {
    /// A seed must be exactly 32 bytes.
    pub open spec fn wf(&self) -> bool {
        self.seed@.len() == 32
    }
}

/// Decodes and validates a seed: fails unless the URL-safe base-64 text
/// decodes to exactly 32 bytes.
pub fn keypair_from_seed(seed_b64: &str) -> (r: Result<Keypair, ProtocolError>)
    ensures
        match r {
            Ok(kp) => kp.wf() && b64u_parse(seed_b64@) == Some(kp.seed@),
            Err(e) => match b64u_parse(seed_b64@) {
                Some(b) => b.len() != 32 && e == ProtocolError::InvalidSeedLength,
                None => e == ProtocolError::DecodeError,
            },
        },
{
    let seed = match from_base64_url(seed_b64) {
        Ok(b) => b,
        Err(e) => {
            return Err(e);
        },
    };
    if seed.len() != 32 {
        return Err(ProtocolError::InvalidSeedLength);
    }
    Ok(Keypair { seed })
}

/// Mints a fresh random identity: the keypair and its seed's encoding.
pub fn create_keypair() -> (r: (Keypair, String))
    ensures
        r.0.wf(),
        b64u_parse(r.1@) == Some(r.0.seed@),
{
    let seed = random_bytes(32);
    let seed_b64 = to_base64_url(&seed);
    (Keypair { seed }, seed_b64)
}

/// A fresh identity for a front end: seed and shared key, both decoding to
/// 32 bytes. The public address comes from the key backend, given the seed.
pub fn new_identity() -> (r: IdentityOutput)
    ensures
        b64u_parse(r.seed@) matches Some(b) && b.len() == 32,
        b64u_parse(r.shared_key@) matches Some(k) && k.len() == 32,
{
    let (_kp, seed) = create_keypair();
    let key = generate_key();
    let shared_key = to_base64_url(&key);
    IdentityOutput { seed, shared_key }
}

/// `ghost://`
pub open spec fn scheme_chars() -> Seq<char> {
    seq!['g', 'h', 'o', 's', 't', ':', '/', '/']
}

/// The invite URL for a peer address and shared key.
pub open spec fn invite_of(addr: Seq<char>, key: Seq<char>) -> Seq<char> {
    scheme_chars() + addr + seq!['#'] + key
}

/// How many separators a text holds.
pub open spec fn hash_count(s: Seq<char>) -> int
    decreases s.len(),
{
    if s.len() == 0 {
        0
    } else {
        hash_count(s.drop_last()) + if s.last() == '#' {
            1int
        } else {
            0
        }
    }
}

/// The position of the first separator, or the length when there is none.
pub open spec fn hash_idx(s: Seq<char>) -> int
    decreases s.len(),
{
    if s.len() == 0 {
        0
    } else if s[0] == '#' {
        0
    } else {
        1 + hash_idx(s.drop_first())
    }
}

/// What parsing an invite URL yields: the mandatory case-sensitive scheme,
/// then peer address and shared key around exactly one separator.
pub open spec fn parse_invite_spec(url: Seq<char>) -> Option<(Seq<char>, Seq<char>)> {
    if url.len() >= 8 && url.take(8) == scheme_chars() {
        let rest = url.skip(8);
        if hash_count(rest) == 1 {
            Some((rest.take(hash_idx(rest)), rest.skip(hash_idx(rest) + 1)))
        } else {
            None
        }
    } else {
        None
    }
}

/// Formats an invite URL for a peer address (as derived by the key backend)
/// and a shared key.
pub fn generate_invite(pubkey: &str, shared_key: &str) -> (r: Result<InviteOutput, ProtocolError>)
    ensures
        r matches Ok(o) && o.invite_url@ == invite_of(pubkey@, shared_key@) && o.pubkey@
            == pubkey@,
{
    let mut url = String::from_str("ghost://");
    proof {
        reveal_strlit("ghost://");
        assert(url@ =~= scheme_chars());
    }
    url.append(pubkey);
    url.append("#");
    proof {
        reveal_strlit("#");
        assert("#"@ =~= seq!['#']);
    }
    url.append(shared_key);
    proof {
        assert(url@ =~= invite_of(pubkey@, shared_key@));
    }
    Ok(InviteOutput { invite_url: url, pubkey: pubkey.to_owned() })
}

/// Parses an invite URL and mints a fresh local seed for the recipient; an
/// invite is consumed exactly once per recipient identity creation.
pub fn parse_invite(invite_url: &str) -> (r: Result<ParsedInvite, ProtocolError>)
    ensures
        match r {
            Ok(p) => parse_invite_spec(invite_url@) matches Some(pk) && p.peer_pubkey@ == pk.0
                && p.shared_key@ == pk.1 && (b64u_parse(p.my_seed@) matches Some(b) && b.len()
                == 32),
            Err(e) => parse_invite_spec(invite_url@) is None && e
                == ProtocolError::InvalidInviteFormat,
        },
{
    let chars = to_char_vec(invite_url);
    let n = chars.len();
    if n < 8 {
        return Err(ProtocolError::InvalidInviteFormat);
    }
    if !(chars[0] == 'g' && chars[1] == 'h' && chars[2] == 'o' && chars[3] == 's' && chars[4]
        == 't' && chars[5] == ':' && chars[6] == '/' && chars[7] == '/') {
        proof {
            assert(invite_url@.take(8) != scheme_chars()) by {
                if invite_url@.take(8) == scheme_chars() {
                    assert(invite_url@[0] == invite_url@.take(8)[0]);
                    assert(invite_url@[1] == invite_url@.take(8)[1]);
                    assert(invite_url@[2] == invite_url@.take(8)[2]);
                    assert(invite_url@[3] == invite_url@.take(8)[3]);
                    assert(invite_url@[4] == invite_url@.take(8)[4]);
                    assert(invite_url@[5] == invite_url@.take(8)[5]);
                    assert(invite_url@[6] == invite_url@.take(8)[6]);
                    assert(invite_url@[7] == invite_url@.take(8)[7]);
                }
            }
        }
        return Err(ProtocolError::InvalidInviteFormat);
    }
    proof {
        assert(invite_url@.take(8) =~= scheme_chars());
    }
    let ghost rest = invite_url@.skip(8);
    let mut count: usize = 0;
    let mut first: usize = n;
    let mut j: usize = 8;
    while j < n
        invariant
            8 <= j <= n,
            n == invite_url@.len(),
            chars@ == invite_url@,
            rest == invite_url@.skip(8),
            count <= j,
            count as int == hash_count(rest.take(j - 8)),
            count == 0 ==> first == n && (forall|k: int| 8 <= k < j ==> invite_url@[k] != '#'),
            count > 0 ==> 8 <= first < j && invite_url@[first as int] == '#' && (forall|k: int|
                8 <= k < first ==> invite_url@[k] != '#'),
        decreases n - j,
    {
        proof {
            assert(rest.take(j - 8 + 1).drop_last() =~= rest.take(j - 8));
            assert(rest.take(j - 8 + 1).last() == invite_url@[j as int]);
        }
        if chars[j] == '#' {
            if count == 0 {
                first = j;
            }
            count = count + 1;
        }
        j = j + 1;
    }
    proof {
        assert(rest.take(n - 8) =~= rest);
    }
    if count != 1 {
        return Err(ProtocolError::InvalidInviteFormat);
    }
    proof {
        lemma_hash_idx_at(rest, first - 8);
        assert(rest.take(first - 8) =~= invite_url@.subrange(8, first as int));
        assert(rest.skip(first - 8 + 1) =~= invite_url@.subrange(first as int + 1, n as int));
    }
    let peer_pubkey = invite_url.substring_char(8, first).to_owned();
    let shared_key = invite_url.substring_char(first + 1, n).to_owned();
    let (_kp, my_seed) = create_keypair();
    Ok(ParsedInvite { peer_pubkey, shared_key, my_seed })
}

proof fn lemma_hash_idx_at(s: Seq<char>, i: int)
    requires
        0 <= i < s.len(),
        s[i] == '#',
        forall|k: int| 0 <= k < i ==> s[k] != '#',
    ensures
        hash_idx(s) == i,
    decreases i,
{
    if i > 0 {
        assert(s[0] != '#');
        assert(s.drop_first()[i - 1] == '#');
        assert(forall|k: int| 0 <= k < i - 1 ==> s.drop_first()[k] != '#');
        lemma_hash_idx_at(s.drop_first(), i - 1);
    }
}

proof fn lemma_hash_count_concat(a: Seq<char>, b: Seq<char>)
    ensures
        hash_count(a + b) == hash_count(a) + hash_count(b),
    decreases b.len(),
{
    if b.len() == 0 {
        assert(a + b =~= a);
    } else {
        lemma_hash_count_concat(a, b.drop_last());
        assert((a + b).drop_last() =~= a + b.drop_last());
        assert((a + b).last() == b.last());
    }
}

proof fn lemma_hash_count_zero(s: Seq<char>)
    requires
        forall|k: int| 0 <= k < s.len() ==> s[k] != '#',
    ensures
        hash_count(s) == 0,
    decreases s.len(),
{
    if s.len() > 0 {
        assert(s.last() != '#');
        assert(forall|k: int| 0 <= k < s.drop_last().len() ==> s.drop_last()[k] != '#');
        lemma_hash_count_zero(s.drop_last());
    }
}

/// Invite round trip: parsing a generated invite URL yields back the address
/// and the shared key, provided neither contains the separator character.
pub proof fn lemma_invite_roundtrip(addr: Seq<char>, key: Seq<char>)
    requires
        forall|k: int| 0 <= k < addr.len() ==> addr[k] != '#',
        forall|k: int| 0 <= k < key.len() ==> key[k] != '#',
    ensures
        parse_invite_spec(invite_of(addr, key)) == Some((addr, key)),
{
    let url = invite_of(addr, key);
    assert(url.take(8) =~= scheme_chars());
    let rest = url.skip(8);
    assert(rest =~= addr + seq!['#'] + key);
    lemma_hash_count_concat(addr + seq!['#'], key);
    lemma_hash_count_concat(addr, seq!['#']);
    lemma_hash_count_zero(addr);
    lemma_hash_count_zero(key);
    assert(hash_count(seq!['#']) == 1) by {
        assert(seq!['#'].drop_last() =~= Seq::<char>::empty());
        assert(seq!['#'].last() == '#');
        assert(hash_count(Seq::<char>::empty()) == 0);
        assert(hash_count(seq!['#']) == hash_count(seq!['#'].drop_last()) + 1);
    }
    assert(hash_count(rest) == 1);
    assert(rest[addr.len() as int] == '#');
    assert(forall|k: int| 0 <= k < addr.len() ==> rest[k] == addr[k] && rest[k] != '#');
    lemma_hash_idx_at(rest, addr.len() as int);
    assert(rest.take(addr.len() as int) =~= addr);
    assert(rest.skip(addr.len() as int + 1) =~= key);
}

} // verus!
