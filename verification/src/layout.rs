//! How listings are laid out: which bundle holds which content, and the
//! bytes of the image that results.

use crate::checksum::xxh3_digest;
use crate::compress::zstd_frame;
use crate::format::{magic, ENTRY_LENGTH, RECORD_FIXED_LENGTH, TABLE_START};
use crate::listing::ListingView;
use vstd::bytes::*;
use vstd::prelude::*;

verus! {

/// A bundle that has grown beyond this size takes no further listing.
/// The size is a target: the listing that crosses it stays whole.
pub const TARGET_BUNDLE_SIZE: usize = 10_000_000;

/// The zstd level at which bundles are compressed.
pub const COMPRESSION_LEVEL: i32 = 3;

/// Where the content of a listing lies.
pub struct Place {
    /// The index of the bundle.
    pub bundle: nat,
    /// The offset in the uncompressed bundle.
    pub offset: nat,
}

/// The bundles, ready for the next listing: a new empty bundle is started
/// if the last one has grown beyond the target.
pub open spec fn opened(bundles: Seq<Seq<u8>>) -> Seq<Seq<u8>> {
    if bundles.last().len() > TARGET_BUNDLE_SIZE {
        bundles.push(Seq::empty())
    } else {
        bundles
    }
}

/// The bundles after the first `n` listings were placed. Packing starts
/// with one empty bundle, and each listing's content is appended to the
/// last bundle that is open for it.
pub open spec fn bundles_after(listings: Seq<ListingView>, n: nat) -> Seq<Seq<u8>>
    decreases n,
{
    if n == 0 {
        seq![Seq::<u8>::empty()]
    } else {
        let open = opened(bundles_after(listings, (n - 1) as nat));
        open.update(open.len() - 1, open.last() + listings[n - 1].content)
    }
}

/// The place that listing `k` gets: the end of the last open bundle at
/// the time it is placed.
pub open spec fn place_of(listings: Seq<ListingView>, k: nat) -> Place {
    let open = opened(bundles_after(listings, k));
    Place { bundle: (open.len() - 1) as nat, offset: open.last().len() }
}

/// The bundles that hold the contents of `listings`.
pub open spec fn packed_bundles(listings: Seq<ListingView>) -> Seq<Seq<u8>> {
    bundles_after(listings, listings.len())
}

/// Packing never loses a bundle, and there is always one.
pub proof fn lemma_bundles_grow(listings: Seq<ListingView>, k: nat, n: nat)
    requires
        k <= n,
    ensures
        1 <= bundles_after(listings, k).len() <= bundles_after(listings, n).len(),
    decreases n,
{
    if n > 0 {
        if k < n {
            lemma_bundles_grow(listings, k, (n - 1) as nat);
        } else {
            lemma_bundles_grow(listings, (n - 1) as nat, (n - 1) as nat);
        }
    }
}

/// Every bundle but the last has grown beyond the target: a new bundle
/// is started for no other reason.
pub proof fn lemma_closed_bundles_exceed_target(listings: Seq<ListingView>, n: nat, i: int)
    requires
        0 <= i < bundles_after(listings, n).len() - 1,
    ensures
        bundles_after(listings, n)[i].len() > TARGET_BUNDLE_SIZE,
    decreases n,
{
    if n > 0 {
        let before = bundles_after(listings, (n - 1) as nat);
        lemma_bundles_grow(listings, (n - 1) as nat, (n - 1) as nat);
        if i < before.len() - 1 {
            lemma_closed_bundles_exceed_target(listings, (n - 1) as nat, i);
        }
    }
}

/// The record of a listing that lies at `place`.
pub open spec fn record_bytes(listing: ListingView, place: Place) -> Seq<u8> {
    spec_u64_to_le_bytes((RECORD_FIXED_LENGTH + listing.path_bytes().len()) as u64)
        + spec_u64_to_le_bytes(place.bundle as u64) + spec_u64_to_le_bytes(place.offset as u64)
        + spec_u64_to_le_bytes(listing.content.len() as u64) + spec_u32_to_le_bytes(
        listing.permissions,
    ) + spec_u64_to_le_bytes(listing.content_checksum) + listing.path_bytes()
}

/// The records of the first `n` listings, in order.
pub open spec fn table_bytes(listings: Seq<ListingView>, n: nat) -> Seq<u8>
    decreases n,
{
    if n == 0 {
        Seq::empty()
    } else {
        table_bytes(listings, (n - 1) as nat) + record_bytes(
            listings[n - 1],
            place_of(listings, (n - 1) as nat),
        )
    }
}

/// The first `n` of `parts`, one after the other.
pub open spec fn joined(parts: Seq<Seq<u8>>, n: nat) -> Seq<u8>
    decreases n,
{
    if n == 0 {
        Seq::empty()
    } else {
        joined(parts, (n - 1) as nat) + parts[n - 1]
    }
}

/// One entry of the bundle directory.
pub open spec fn entry_bytes(offset: int, size: int, checksum: u64) -> Seq<u8> {
    spec_u64_to_le_bytes(offset as u64) + spec_u64_to_le_bytes(size as u64) + spec_u64_to_le_bytes(
        checksum,
    )
}

/// The first `n` entries of the bundle directory, where the first
/// compressed bundle lies at `first` and each follows the one before.
pub open spec fn directory_bytes(
    checksums: Seq<u64>,
    streams: Seq<Seq<u8>>,
    first: int,
    n: nat,
) -> Seq<u8>
    decreases n,
{
    if n == 0 {
        Seq::empty()
    } else {
        directory_bytes(checksums, streams, first, (n - 1) as nat) + entry_bytes(
            first + joined(streams, (n - 1) as nat).len(),
            streams[n - 1].len() as int,
            checksums[n - 1],
        )
    }
}

/// Where the first compressed bundle lies, counted from the start of the
/// image: behind the fixed fields, the listing table and the directory.
pub open spec fn first_payload_offset(table: Seq<u8>, bundles: nat) -> int {
    TABLE_START + table.len() + ENTRY_LENGTH * bundles
}

/// The body of an image: everything that the archive checksum covers.
pub open spec fn body_bytes(
    table: Seq<u8>,
    listings: nat,
    checksums: Seq<u64>,
    streams: Seq<Seq<u8>>,
) -> Seq<u8> {
    spec_u64_to_le_bytes(table.len() as u64) + spec_u64_to_le_bytes(listings as u64)
        + spec_u64_to_le_bytes(streams.len() as u64) + table + directory_bytes(
        checksums,
        streams,
        first_payload_offset(table, streams.len()),
        streams.len(),
    ) + joined(streams, streams.len())
}

/// The image made of a listing table, the checksums of the bundles and
/// the compressed bundles.
pub open spec fn image_bytes(
    table: Seq<u8>,
    listings: nat,
    checksums: Seq<u64>,
    streams: Seq<Seq<u8>>,
) -> Seq<u8> {
    let body = body_bytes(table, listings, checksums, streams);
    magic() + spec_u64_to_le_bytes(xxh3_digest(body)) + body
}

/// The checksums of bundles.
pub open spec fn checksums_of(bundles: Seq<Seq<u8>>) -> Seq<u64> {
    Seq::new(bundles.len(), |i: int| xxh3_digest(bundles[i]))
}

/// Bundles as they are stored: compressed at the format's level, with
/// neither frame checksum nor content size.
pub open spec fn streams_of(bundles: Seq<Seq<u8>>) -> Seq<Seq<u8>> {
    Seq::new(bundles.len(), |i: int| zstd_frame(bundles[i], COMPRESSION_LEVEL, false, false))
}

/// The archive image of a sequence of listings.
pub open spec fn archive_bytes(listings: Seq<ListingView>) -> Seq<u8> {
    let bundles = packed_bundles(listings);
    image_bytes(
        table_bytes(listings, listings.len()),
        listings.len(),
        checksums_of(bundles),
        streams_of(bundles),
    )
}

} // verus!
