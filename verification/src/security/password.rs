//! Password hashes: a salt and an Argon2id digest, in hexadecimal, with a colon
//! between them.

use vstd::prelude::*;
use vstd::utf8::encode_utf8;

use crate::security::cipher::{argon2id, random_bytes, Costs};
use crate::security::hex::{
    bytes_to_hex, hex_text, hex_to_bytes, hex_value, law_hex_round_trip, lemma_hex_text_digits,
};
use crate::security::tde::{derived_key, KDF_LANES, KDF_MEMORY, KDF_PASSES};
use crate::text::{chars_of, string_of};

verus! {

/// Whether the only colon of a text stands at `k`.
pub open spec fn lone_colon(s: Seq<char>, k: int) -> bool {
    0 <= k < s.len() && forall|i: int| 0 <= i < s.len() ==> (#[trigger] s[i] == ':' <==> i == k)
}

/// The salt and the digest of two texts in hexadecimal.
pub open spec fn decoded(salt: Option<Seq<u8>>, digest: Option<Seq<u8>>) -> Option<
    (Seq<u8>, Seq<u8>),
> {
    match (salt, digest) {
        (Some(a), Some(b)) => if a.len() == 16 && b.len() == 32 {
            Some((a, b))
        } else {
            None
        },
        _ => None,
    }
}

/// The salt and the digest that a stored hash holds.
pub open spec fn hash_parts(stored: Seq<char>) -> Option<(Seq<u8>, Seq<u8>)> {
    if exists|k: int| lone_colon(stored, k) {
        let k = choose|k: int| lone_colon(stored, k);
        decoded(
            hex_value(encode_utf8(stored.take(k))),
            hex_value(encode_utf8(stored.skip(k + 1))),
        )
    } else {
        None
    }
}

/// Whether a stored hash is that of a password.
pub open spec fn password_matches(password: Seq<char>, stored: Seq<char>) -> bool {
    match hash_parts(stored) {
        Some(p) => derived_key(password, p.0) == p.1,
        None => false,
    }
}

/// The hash that is stored for a salt and a digest.
pub open spec fn stored_hash(salt: Seq<u8>, digest: Seq<u8>) -> Seq<char> {
    hex_text(salt) + seq![':'] + hex_text(digest)
}

/// A stored hash holds the salt and the digest that it was made of.
pub proof fn law_stored_hash(salt: Seq<u8>, digest: Seq<u8>)
    requires
        salt.len() == 16,
        digest.len() == 32,
    ensures
        hash_parts(stored_hash(salt, digest)) == Some((salt, digest)),
{
    let s = stored_hash(salt, digest);
    let a = hex_text(salt);
    let b = hex_text(digest);
    lemma_hex_text_digits(salt);
    lemma_hex_text_digits(digest);
    assert(lone_colon(s, 32)) by {
        assert forall|i: int| 0 <= i < s.len() implies (#[trigger] s[i] == ':' <==> i == 32) by {
            if i < 32 {
                assert(s[i] == a[i]);
            } else if i > 32 {
                assert(s[i] == b[i - 33]);
            }
        }
    }
    let k = choose|k: int| lone_colon(s, k);
    assert(s[32] == ':');
    assert(k == 32);
    assert(s.take(32) =~= a);
    assert(s.skip(33) =~= b);
    law_hex_round_trip(salt);
    law_hex_round_trip(digest);
}

/// Whether two byte strings are equal. Every byte is looked at.
pub fn constant_time_eq(a: &[u8], b: &[u8]) -> (r: bool)
    ensures
        r == (a@ == b@),
{
    if a.len() != b.len() {
        return false;
    }
    let mut diff: u8 = 0;
    let mut i: usize = 0;
    while i < a.len()
        invariant
            i <= a@.len(),
            a@.len() == b@.len(),
            diff == 0 <==> forall|k: int| 0 <= k < i ==> #[trigger] a@[k] == b@[k],
        decreases a@.len() - i,
    {
        let x: u8 = a[i];
        let y: u8 = b[i];
        let before: u8 = diff;
        diff = diff | (x ^ y);
        assert(before | (x ^ y) == 0 <==> before == 0 && x == y) by (bit_vector);
        i = i + 1;
        proof {
            if diff == 0 {
                assert(a@[i - 1] == b@[i - 1]);
            } else if before == 0 {
                assert(a@[i - 1] != b@[i - 1]);
            }
        }
    }
    proof {
        if diff == 0 {
            assert(a@ =~= b@);
        }
    }
    diff == 0
}

/// The salt and the digest that a stored hash holds.
pub fn split_hash(stored: &str) -> (r: Option<(Vec<u8>, Vec<u8>)>)
    ensures
        match r {
            Some(p) => hash_parts(stored@) == Some((p.0@, p.1@)),
            None => hash_parts(stored@) is None,
        },
{
    let chars: Vec<char> = chars_of(stored);
    let n: usize = chars.len();
    let mut k: usize = 0;
    while k < n && chars[k] != ':'
        invariant
            k <= n,
            n == chars@.len(),
            forall|i: int| 0 <= i < k ==> #[trigger] chars@[i] != ':',
        decreases n - k,
    {
        k = k + 1;
    }
    if k == n {
        assert(!exists|j: int| lone_colon(stored@, j)) by {
            if exists|j: int| lone_colon(stored@, j) {
                let j = choose|j: int| lone_colon(stored@, j);
                assert(stored@[j] == ':');
            }
        }
        return None;
    }
    let mut i: usize = k + 1;
    while i < n
        invariant
            k < i <= n,
            n == chars@.len(),
            chars@ == stored@,
            chars@[k as int] == ':',
            forall|j: int| 0 <= j < i && j != k ==> #[trigger] chars@[j] != ':',
        decreases n - i,
    {
        if chars[i] == ':' {
            assert(!exists|j: int| lone_colon(stored@, j)) by {
                if exists|j: int| lone_colon(stored@, j) {
                    let j = choose|j: int| lone_colon(stored@, j);
                    assert(stored@[k as int] == ':');
                    assert(stored@[i as int] == ':');
                }
            }
            return None;
        }
        i = i + 1;
    }
    proof {
        assert(lone_colon(stored@, k as int));
        let j = choose|j: int| lone_colon(stored@, j);
        assert(stored@[k as int] == ':');
        assert(j == k);
    }
    let left: String = string_of(chars.as_slice(), 0, k);
    let right: String = string_of(chars.as_slice(), k + 1, n);
    assert(left@ =~= stored@.take(k as int));
    assert(right@ =~= stored@.skip(k + 1));
    match (hex_to_bytes(left.as_str()), hex_to_bytes(right.as_str())) {
        (Some(salt), Some(digest)) => {
            if salt.len() == 16 && digest.len() == 32 {
                Some((salt, digest))
            } else {
                None
            }
        },
        _ => None,
    }
}

fn costs() -> (r: Costs)
    ensures
        r.memory == KDF_MEMORY,
        r.passes == KDF_PASSES,
        r.lanes == KDF_LANES,
{
    Costs { memory: KDF_MEMORY, passes: KDF_PASSES, lanes: KDF_LANES }
}

/// The stored form of a salt and the digest that was computed with it; `None`
/// where there is no digest.
pub fn write_hash(salt: &[u8], digest: &Option<Vec<u8>>) -> (r: Option<String>)
    ensures
        match (r, *digest) {
            (Some(s), Some(d)) => s@ == stored_hash(salt@, d@),
            (None, None) => true,
            _ => false,
        },
{
    match digest {
        Some(d) => {
            let mut out: String = bytes_to_hex(salt);
            let right: String = bytes_to_hex(d.as_slice());
            out.push(':');
            out.append(right.as_str());
            assert(out@ =~= stored_hash(salt@, d@));
            Some(out)
        },
        None => None,
    }
}

/// The digest of a password with a salt. The memory for it may not be to be
/// had, so success is not stated.
pub fn password_digest(password: &str, salt: &[u8]) -> (r: Option<Vec<u8>>)
    ensures
        r matches Some(d) ==> d@ == derived_key(password@, salt@) && d@.len() == 32,
{
    match argon2id(password.as_bytes(), salt, costs()) {
        Ok(digest) => Some(digest),
        Err(_) => None,
    }
}

/// Hashes a password with a salt. The memory for it may not be to be had, so
/// success is not stated.
pub fn hash_with_salt(password: &str, salt: &[u8]) -> (r: Option<String>)
    requires
        salt@.len() == 16,
    ensures
        r matches Some(s) ==> s@ == stored_hash(salt@, derived_key(password@, salt@))
            && password_matches(password@, s@),
{
    let digest: Option<Vec<u8>> = password_digest(password, salt);
    proof {
        if digest is Some {
            law_stored_hash(salt@, digest->0@);
        }
    }
    write_hash(salt, &digest)
}

/// Hashes a password with a random salt. The hash matches the password.
pub fn hash_password(password: &str) -> (r: Option<String>)
    ensures
        r matches Some(s) ==> password_matches(password@, s@) && exists|salt: Seq<u8>|
            salt.len() == 16 && s@ == #[trigger] stored_hash(salt, derived_key(password@, salt)),
{
    let salt: Vec<u8> = random_bytes(16);
    hash_with_salt(password, salt.as_slice())
}

/// Whether a digest that was computed is the one that was stored; `None` stands
/// for a digest that could not be computed.
pub fn digest_matches(computed: &Option<Vec<u8>>, expected: &[u8]) -> (r: bool)
    ensures
        r == match *computed {
            Some(d) => d@ == expected@,
            None => false,
        },
{
    match computed {
        Some(d) => constant_time_eq(d.as_slice(), expected),
        None => false,
    }
}

/// Whether a stored hash is that of a password. Where the memory for the digest
/// is not to be had, the answer is no.
pub fn verify_password(password: &str, stored: &str) -> (r: bool)
    ensures
        r ==> password_matches(password@, stored@),
        hash_parts(stored@) is None ==> !r,
{
    match split_hash(stored) {
        None => false,
        Some(p) => {
            let computed: Option<Vec<u8>> = password_digest(password, p.0.as_slice());
            digest_matches(&computed, p.1.as_slice())
        },
    }
}

} // verus!
