//! XXH3 digests, the integrity check used throughout the archive format.

use vstd::prelude::*;

verus! {

/// The 64-bit XXH3 digest of `data`, with the default seed and secret.
pub uninterp spec fn xxh3_digest(data: Seq<u8>) -> u64;

/// Calls `xxhash_rust::xxh3::xxh3_64`.
///
/// Trusted: the result is the XXH3 digest of the bytes, a function of the
/// bytes alone.
#[verifier::external_body]
pub(crate) fn xxh3(data: &[u8]) -> (digest: u64)
    ensures
        digest == xxh3_digest(data@),
{
    xxhash_rust::xxh3::xxh3_64(data)
}

/// The digest of `data`, for callers that keep checksums beside content.
pub fn content_checksum(data: &Vec<u8>) -> (digest: u64)
    ensures
        digest == xxh3_digest(data@),
{
    xxh3(data.as_slice())
}

} // verus!
