//! Changed images are refused: the proof.

use crate::checksum::xxh3_digest;
use crate::error::Failure;
use crate::format::{decoded, frame_failure};
use crate::listing::ListingView;
use vstd::bytes::*;
use vstd::prelude::*;

verus! {

/// The body of an image: what its archive checksum covers.
pub open spec fn body_of(image: Seq<u8>) -> Seq<u8> {
    image.subrange(16, image.len() as int)
}

/// `bytes` with bit `bit` of the byte at `at` flipped.
pub open spec fn flipped(bytes: Seq<u8>, at: int, bit: u8) -> Seq<u8> {
    bytes.update(at, bytes[at] ^ (1u8 << bit))
}

/// Different groups of eight bytes hold different numbers.
pub proof fn lemma_u64_bytes_differ(a: Seq<u8>, b: Seq<u8>)
    requires
        a.len() == 8,
        b.len() == 8,
        a != b,
    ensures
        spec_u64_from_le_bytes(a) != spec_u64_from_le_bytes(b),
{
    lemma_auto_spec_u64_to_from_le_bytes();
    assert(spec_u64_to_le_bytes(spec_u64_from_le_bytes(a)) == a);
}

/// An image whose stored archive checksum was changed, and nothing else,
/// fails with `BadArchiveChecksum`.
pub proof fn lemma_changed_checksum_detected(valid: Seq<u8>, changed: Seq<u8>)
    requires
        frame_failure(valid) is None,
        changed.len() == valid.len(),
        changed != valid,
        forall|i: int|
            0 <= i < valid.len() && !(8 <= i < 16) ==> #[trigger] changed[i] == valid[i],
    ensures
        decoded(changed) == Err::<Seq<ListingView>, Failure>(Failure::BadArchiveChecksum),
{
    assert(changed.subrange(0, 8) =~= valid.subrange(0, 8));
    assert(body_of(changed) =~= body_of(valid));
    if changed.subrange(8, 16) == valid.subrange(8, 16) {
        assert forall|i: int| 0 <= i < valid.len() implies changed[i] == valid[i] by {
            if 8 <= i < 16 {
                assert(changed.subrange(8, 16)[i - 8] == valid.subrange(8, 16)[i - 8]);
            }
        }
        assert(changed =~= valid);
    }
    lemma_u64_bytes_differ(changed.subrange(8, 16), valid.subrange(8, 16));
}

/// An image whose body was changed fails with `BadArchiveChecksum`,
/// unless the changed body has the digest of the body it replaces.
pub proof fn lemma_changed_body_detected(valid: Seq<u8>, changed: Seq<u8>)
    requires
        frame_failure(valid) is None,
        changed.len() == valid.len(),
        changed.subrange(0, 16) == valid.subrange(0, 16),
        xxh3_digest(body_of(changed)) != xxh3_digest(body_of(valid)),
    ensures
        decoded(changed) == Err::<Seq<ListingView>, Failure>(Failure::BadArchiveChecksum),
{
    assert(changed.subrange(0, 8) =~= changed.subrange(0, 16).subrange(0, 8));
    assert(valid.subrange(0, 8) =~= valid.subrange(0, 16).subrange(0, 8));
    assert(changed.subrange(8, 16) =~= changed.subrange(0, 16).subrange(8, 16));
    assert(valid.subrange(8, 16) =~= valid.subrange(0, 16).subrange(8, 16));
}

/// A single flipped bit behind the magic number is detected: decoding
/// fails with `BadArchiveChecksum`. For a bit of the body this holds
/// unless the flip leaves the digest of the body as it was.
pub proof fn lemma_bit_flip_detected(valid: Seq<u8>, at: int, bit: u8)
    requires
        frame_failure(valid) is None,
        8 <= at < valid.len(),
        bit < 8,
        at >= 16 ==> xxh3_digest(body_of(flipped(valid, at, bit))) != xxh3_digest(body_of(valid)),
    ensures
        decoded(flipped(valid, at, bit)) == Err::<Seq<ListingView>, Failure>(
            Failure::BadArchiveChecksum,
        ),
{
    let changed = flipped(valid, at, bit);
    let byte = valid[at];
    assert(byte ^ (1u8 << bit) != byte) by (bit_vector)
        requires
            bit < 8,
    ;
    if at < 16 {
        lemma_changed_checksum_detected(valid, changed);
    } else {
        assert(changed.subrange(0, 16) =~= valid.subrange(0, 16));
        lemma_changed_body_detected(valid, changed);
    }
}

} // verus!
