//! SHA-256.

use vstd::prelude::*;

verus! {

/// The SHA-256 digest of some bytes, as an array.
pub uninterp spec fn sha256_array(data: Seq<u8>) -> [u8; 32];

/// The SHA-256 digest of some bytes.
pub open spec fn sha256_digest(data: Seq<u8>) -> Seq<u8> {
    sha256_array(data)@
}

/// A digest is 32 bytes long.
pub proof fn lemma_digest_len(data: Seq<u8>)
    ensures
        sha256_digest(data).len() == 32,
{
}

/// `sha2::Sha256`: the digest of `a` followed by `b`, fed in two updates; it
/// depends on the joined bytes alone.
#[verifier::external_body]
pub(crate) fn sha256_parts(a: &[u8], b: &[u8]) -> (r: [u8; 32])
    ensures
        r == sha256_array(a@ + b@),
{
    let mut h = <sha2::Sha256 as sha2::Digest>::new();
    sha2::Digest::update(&mut h, a);
    sha2::Digest::update(&mut h, b);
    sha2::Digest::finalize(h).into()
}

} // verus!
