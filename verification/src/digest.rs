//! SHA-256 of a blob, by the `sha2` crate.

use sha2::Digest;
use vstd::prelude::*;

verus! {

/// The SHA-256 digest of `data`, as `sha2::Sha256` computes it.
pub uninterp spec fn sha256(data: Seq<u8>) -> Seq<u8>;

/// Calls `sha2::Sha256::digest`. Nothing is proved of it; assumed is that
/// the 32 bytes it returns are the ones named by [`sha256`], which is to say
/// that they depend on the bytes of `data` and on nothing else.
#[verifier::external_body]
pub(crate) fn sha256_of(data: &[u8]) -> (r: [u8; 32])
    ensures
        r@ == sha256(data@),
{
    sha2::Sha256::digest(data).into()
}

/// The digest of a blob: the same bytes always give the same digest.
pub fn digest(blob: &[u8]) -> (d: [u8; 32])
    ensures
        d@ == sha256(blob@),
{
    sha256_of(blob)
}

} // verus!
