//! SHA-256 digests.
use sha2::{Digest, Sha256};
use vstd::prelude::*;

verus! {

/// The SHA-256 digest of `data`.
pub uninterp spec fn sha256(data: Seq<u8>) -> [u8; 32];

/// `Sha256` fed with `data` by one `update` and then finalized: the digest of `data`,
/// which depends on nothing else.
#[verifier::external_body]
pub(crate) fn h(data: &[u8]) -> (r: [u8; 32])
    ensures
        r == sha256(data@),
{
    let mut hasher = Sha256::new();
    hasher.update(data);
    hasher.finalize().into()
}

/// The digest of two digests, one after the other.
pub(crate) fn h2(a: &[u8; 32], b: &[u8; 32]) -> (r: [u8; 32])
    ensures
        r == sha256(a@ + b@),
{
    let mut data: Vec<u8> = Vec::with_capacity(64);
    data.extend_from_slice(a);
    data.extend_from_slice(b);
    assert(data@ =~= a@ + b@);
    h(data.as_slice())
}

/// Whether two digests are the same.
pub fn same_digest(a: &[u8; 32], b: &[u8; 32]) -> (r: bool)
    ensures
        r == (*a == *b),
{
    let mut i: usize = 0;
    while i < 32
        invariant
            i <= 32,
            forall|k: int| 0 <= k < i ==> a@[k] == b@[k],
        decreases 32 - i,
    {
        if a[i] != b[i] {
            return false;
        }
        i = i + 1;
    }
    assert(*a =~= *b);
    true
}

} // verus!
