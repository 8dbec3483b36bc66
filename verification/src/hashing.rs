//! Content hashes used by the diff engines (xxh64) and by the patch container (SHA-256).

use vstd::prelude::*;

verus! {

/// The seed that every xxh64 hash of this library uses.
pub const XXH_SEED: u64 = 0x9E37_79B9_7F4A_7C15;

/// The xxh64 digest of `data` under `seed`.
pub uninterp spec fn spec_xxh64(data: Seq<u8>, seed: u64) -> u64;

/// Calls `xxhash_rust::xxh64::xxh64`. Trusted: its result is `spec_xxh64` of the bytes
/// and the seed, a function of those two alone.
#[verifier::external_body]
pub(crate) fn xxh64_raw(data: &[u8], seed: u64) -> (h: u64)
    ensures
        h == spec_xxh64(data@, seed),
{
    xxhash_rust::xxh64::xxh64(data, seed)
}

/// xxh64 of `data` under the library seed.
pub fn xxh(data: &[u8]) -> (h: u64)
    ensures
        h == spec_xxh64(data@, XXH_SEED),
{
    xxh64_raw(data, XXH_SEED)
}

/// The SHA-256 digest of `data`.
pub uninterp spec fn spec_sha256(data: Seq<u8>) -> Seq<u8>;

/// Calls `sha2::Sha256::digest`. Trusted: its result is `spec_sha256` of the bytes, and a
/// SHA-256 digest is 32 bytes long.
#[verifier::external_body]
pub(crate) fn sha256_raw(data: &[u8]) -> (d: [u8; 32])
    ensures
        d@ == spec_sha256(data@),
        d@.len() == 32,
{
    <sha2::Sha256 as sha2::Digest>::digest(data).into()
}

} // verus!
