//! The hash functions the chain is built on, called in the crates that provide them.

use vstd::prelude::*;
use sha2::Digest;
use hash_db::Hasher;

verus! {

/// A 256-bit hash.
pub type H256 = [u8; 32];

/// The bytes of each hash in a sequence.
pub open spec fn hash_views(s: Seq<H256>) -> Seq<Seq<u8>> {
    s.map_values(|h: H256| h@)
}

/// The SHA-256 digest of a byte string.
pub uninterp spec fn sha256_spec(data: Seq<u8>) -> Seq<u8>;

/// The Keccak-256 digest of a byte string.
pub uninterp spec fn keccak256_spec(data: Seq<u8>) -> Seq<u8>;

/// Calls `sha2::Sha256::digest`. Claimed: the 32 bytes returned are the SHA-256
/// digest of `data`, a function of `data` alone.
#[verifier::external_body]
pub(crate) fn sha256(data: &[u8]) -> (r: H256)
    ensures
        r@ == sha256_spec(data@),
{
    sha2::Sha256::digest(data).into()
}

/// Calls `<keccak_hasher::KeccakHasher as hash_db::Hasher>::hash`. Claimed: the
/// 32 bytes returned are the Keccak-256 digest of `data`, a function of `data` alone.
#[verifier::external_body]
pub(crate) fn keccak256(data: &[u8]) -> (r: H256)
    ensures
        r@ == keccak256_spec(data@),
{
    keccak_hasher::KeccakHasher::hash(data)
}

} // verus!
