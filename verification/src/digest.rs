//! The two hash functions of the chain.

use crate::bytes::Hash32;
use blake2::Digest;
use vstd::prelude::*;

verus! {

/// The SHA-256 digest of a byte string.
pub uninterp spec fn sha256_of(data: Seq<u8>) -> Seq<u8>;

/// The BLAKE2b digest of a byte string, with a 32-byte output and no key.
pub uninterp spec fn blake2b256_of(data: Seq<u8>) -> Seq<u8>;

/// Calls `sha2::Sha256::digest`: the digest depends on the bytes alone and is 32 bytes long.
#[verifier::external_body]
pub(crate) fn sha256(data: &[u8]) -> (h: Hash32)
    ensures
        h@ == sha256_of(data@),
{
    sha2::Sha256::digest(data).into()
}

/// Calls `blake2::Blake2b::<U32>::digest`: the digest depends on the bytes alone and is
/// 32 bytes long.
#[verifier::external_body]
pub(crate) fn blake2b256(data: &[u8]) -> (h: Hash32)
    ensures
        h@ == blake2b256_of(data@),
{
    blake2::Blake2b::<blake2::digest::consts::U32>::digest(data).into()
}

} // verus!
