//! Content digests: the strategy the catalog hashes whole files with.
//!
//! Two strategies are offered: MD5, the fast default, and SHA-3-256 for the
//! paranoid. Either digest is a fixed-width function of the input bytes
//! alone; the catalog only ever compares digests for equality.

use vstd::prelude::*;

use sha3::Digest;

verus! {

/// Which digest the catalog uses for the full-content tier.
#[derive(Clone, Copy, Debug, PartialEq, Eq, Structural)]
pub enum HashKind {
    /// 16-byte MD5, the fast default.
    Md5,
    /// 32-byte SHA-3-256, for the paranoid.
    Sha3,
}

/// The MD5 digest of a byte sequence.
pub uninterp spec fn md5_of(data: Seq<u8>) -> Seq<u8>;

/// The SHA-3-256 digest of a byte sequence.
pub uninterp spec fn sha3_of(data: Seq<u8>) -> Seq<u8>;

/// The digest a strategy assigns to a byte sequence.
pub open spec fn digest_of(kind: HashKind, data: Seq<u8>) -> Seq<u8> {
    match kind {
        HashKind::Md5 => md5_of(data),
        HashKind::Sha3 => sha3_of(data),
    }
}

/// Relies on `md5::compute`: the 16-byte MD5 digest of the input bytes,
/// a function of those bytes alone.
#[verifier::external_body]
fn md5_digest(data: &[u8]) -> (r: Vec<u8>)
    ensures
        r@ == md5_of(data@),
        r@.len() == 16,
{
    md5::compute(data).0.to_vec()
}

/// Relies on `sha3::Sha3_256` through the `digest::Digest` trait: the
/// 32-byte SHA-3-256 digest of the input bytes, a function of those bytes
/// alone.
#[verifier::external_body]
fn sha3_digest(data: &[u8]) -> (r: Vec<u8>)
    ensures
        r@ == sha3_of(data@),
        r@.len() == 32,
{
    sha3::Sha3_256::digest(data).to_vec()
}

/// Digests `data` with the chosen strategy.
pub fn hash_bytes(kind: HashKind, data: &[u8]) -> (r: Vec<u8>)
    ensures
        r@ == digest_of(kind, data@),
{
    match kind {
        HashKind::Md5 => md5_digest(data),
        HashKind::Sha3 => sha3_digest(data),
    }
}

/// Compares two byte vectors for equality.
pub fn bytes_eq(a: &Vec<u8>, b: &Vec<u8>) -> (r: bool)
    ensures
        r == (a@ == b@),
{
    if a.len() != b.len() {
        return false;
    }
    let mut i: usize = 0;
    while i < a.len()
        invariant
            i <= a@.len(),
            a@.len() == b@.len(),
            forall|j: int| 0 <= j < i ==> a@[j] == b@[j],
        decreases a@.len() - i,
    {
        if a[i] != b[i] {
            return false;
        }
        i = i + 1;
    }
    proof {
        assert(a@ =~= b@);
    }
    true
}

} // verus!
