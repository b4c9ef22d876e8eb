//! BLAKE3 digests.

use vstd::prelude::*;

use crate::text::bytes_equal;

verus! {

/// A 32-byte BLAKE3 digest.
pub type Digest = [u8; 32];

/// The BLAKE3 digest of a byte string.
pub uninterp spec fn blake3_of(data: Seq<u8>) -> [u8; 32];

/// Calls `blake3::hash`. The digest depends on the bytes alone.
#[verifier::external_body]
pub(crate) fn blake3_hash(data: &[u8]) -> (r: [u8; 32])
    ensures
        r == blake3_of(data@),
{
    *blake3::hash(data).as_bytes()
}

/// Two digests with the same bytes are the same.
pub proof fn lemma_same_digest(a: Digest, b: Digest)
    requires
        a@ == b@,
    ensures
        a == b,
{
    assert(a =~= b);
}

/// Whether two digests are the same.
pub fn same_hash(a: &Digest, b: &Digest) -> (r: bool)
    ensures
        r == (*a == *b),
{
    let r: bool = bytes_equal(a.as_slice(), b.as_slice());
    proof {
        if r {
            lemma_same_digest(*a, *b);
        }
    }
    r
}

/// Whether BLAKE3 gives two different byte strings the same digest.
pub open spec fn collision() -> bool {
    exists|x: Seq<u8>, y: Seq<u8>| x != y && #[trigger] blake3_of(x) == #[trigger] blake3_of(y)
}

} // verus!
