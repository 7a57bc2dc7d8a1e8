//! Decoding undoes encoding: the proof.

use crate::checksum::xxh3_digest;
use crate::encode::{lemma_directory_length, restorable};
use crate::error::Failure;
use crate::format::{
    bundle_checksum, bundle_count, bundles_upto, decoded, entry_fits, entry_start, frame_failure,
    listing_at, listing_count, listings_upto, magic, payload, payload_fits, record_at, record_fits,
    record_start, table_length, Record, ENTRY_LENGTH, RECORD_FIXED_LENGTH, TABLE_START,
};
use crate::layout::{
    archive_bytes, body_bytes, bundles_after, checksums_of, directory_bytes, entry_bytes,
    first_payload_offset, image_bytes, joined, lemma_bundles_grow, packed_bundles, place_of,
    record_bytes, streams_of, table_bytes, Place,
};
use crate::listing::{all_consistent, is_directory, sorted, ListingView};
use crate::wire::u64_at;
use vstd::bytes::*;
use vstd::prelude::*;
use vstd::utf8::*;

verus! {

/// A record is 44 bytes and its path long.
pub proof fn lemma_record_length(listing: ListingView, place: Place)
    ensures
        record_bytes(listing, place).len() == RECORD_FIXED_LENGTH + listing.path_bytes().len(),
{
    lemma_auto_spec_u64_to_from_le_bytes();
    lemma_auto_spec_u32_to_from_le_bytes();
}

/// The table of the first `k` listings opens the table of the first `n`,
/// and a table holds at least 44 bytes for each listing.
pub proof fn lemma_table_prefix(listings: Seq<ListingView>, k: nat, n: nat)
    requires
        k <= n,
    ensures
        table_bytes(listings, k).len() <= table_bytes(listings, n).len(),
        table_bytes(listings, n).subrange(0, table_bytes(listings, k).len() as int) == table_bytes(
            listings,
            k,
        ),
        table_bytes(listings, n).len() >= RECORD_FIXED_LENGTH * n,
    decreases n,
{
    if n > 0 {
        lemma_record_length(listings[n - 1], place_of(listings, (n - 1) as nat));
        if k == n {
            lemma_table_prefix(listings, (n - 1) as nat, (n - 1) as nat);
        } else {
            lemma_table_prefix(listings, k, (n - 1) as nat);
        }
    }
}

/// Record `k` lies in the table behind the records before it.
pub proof fn lemma_record_in_table(listings: Seq<ListingView>, k: nat, n: nat)
    requires
        k < n,
    ensures
        table_bytes(listings, (k + 1) as nat).len() <= table_bytes(listings, n).len(),
        table_bytes(listings, n).subrange(
            table_bytes(listings, k).len() as int,
            table_bytes(listings, (k + 1) as nat).len() as int,
        ) == record_bytes(listings[k as int], place_of(listings, k)),
{
    lemma_table_prefix(listings, (k + 1) as nat, n);
    let whole = table_bytes(listings, n);
    let upto = table_bytes(listings, (k + 1) as nat);
    let before = table_bytes(listings, k);
    assert(whole.subrange(before.len() as int, upto.len() as int) =~= whole.subrange(
        0,
        upto.len() as int,
    ).subrange(before.len() as int, upto.len() as int));
}

/// Part `i` lies in the joined parts behind the parts before it.
pub proof fn lemma_part_in_joined(parts: Seq<Seq<u8>>, i: nat, n: nat)
    requires
        i < n,
    ensures
        joined(parts, (i + 1) as nat).len() <= joined(parts, n).len(),
        joined(parts, (i + 1) as nat).len() == joined(parts, i).len() + parts[i as int].len(),
        joined(parts, n).subrange(
            joined(parts, i).len() as int,
            joined(parts, (i + 1) as nat).len() as int,
        ) == parts[i as int],
    decreases n,
{
    if i + 1 < n {
        lemma_part_in_joined(parts, i, (n - 1) as nat);
    }
}

/// Entry `i` lies in the directory at 24 times `i`.
pub proof fn lemma_entry_in_directory(
    checksums: Seq<u64>,
    streams: Seq<Seq<u8>>,
    first: int,
    i: nat,
    n: nat,
)
    requires
        i < n,
    ensures
        directory_bytes(checksums, streams, first, n).len() == ENTRY_LENGTH * n,
        directory_bytes(checksums, streams, first, n).subrange(
            ENTRY_LENGTH * i,
            ENTRY_LENGTH * i + ENTRY_LENGTH,
        ) == entry_bytes(
            first + joined(streams, i).len(),
            streams[i as int].len() as int,
            checksums[i as int],
        ),
    decreases n,
{
    lemma_directory_length(checksums, streams, first, n);
    lemma_directory_length(checksums, streams, first, (n - 1) as nat);
    if i + 1 < n {
        lemma_entry_in_directory(checksums, streams, first, i, (n - 1) as nat);
    }
}

/// The content of listing `k` stays where it was placed, whatever is
/// packed after it.
pub proof fn lemma_content_stays(listings: Seq<ListingView>, k: nat, n: nat)
    requires
        k < n,
    ensures
        ({
            let place = place_of(listings, k);
            let bundles = bundles_after(listings, n);
            let content = listings[k as int].content;
            &&& place.bundle < bundles.len()
            &&& place.offset + content.len() <= bundles[place.bundle as int].len()
            &&& bundles[place.bundle as int].subrange(
                place.offset as int,
                (place.offset + content.len()) as int,
            ) == content
        }),
    decreases n,
{
    lemma_bundles_grow(listings, k, k);
    if n > k + 1 {
        lemma_content_stays(listings, k, (n - 1) as nat);
    }
}

/// What an image is known to hold once it is taken apart: sound framing,
/// the three counts, and the table, the directory and the compressed
/// bundles each at its place.
pub open spec fn laid_out(
    image: Seq<u8>,
    table: Seq<u8>,
    listings: nat,
    checksums: Seq<u64>,
    streams: Seq<Seq<u8>>,
) -> bool {
    let first = first_payload_offset(table, streams.len());
    &&& image.len() == first + joined(streams, streams.len()).len()
    &&& image.len() <= u64::MAX
    &&& frame_failure(image) is None
    &&& table_length(image) == table.len()
    &&& listing_count(image) == listings
    &&& bundle_count(image) == streams.len()
    &&& image.subrange(TABLE_START as int, TABLE_START + table.len()) == table
    &&& image.subrange(TABLE_START + table.len(), first) == directory_bytes(
        checksums,
        streams,
        first,
        streams.len(),
    )
    &&& image.subrange(first, image.len() as int) == joined(streams, streams.len())
}

/// An image is laid out as its parts say.
pub proof fn lemma_image_laid_out(
    table: Seq<u8>,
    listings: nat,
    checksums: Seq<u64>,
    streams: Seq<Seq<u8>>,
)
    requires
        streams.len() >= 1,
        listings <= u64::MAX,
        image_bytes(table, listings, checksums, streams).len() <= u64::MAX,
    ensures
        laid_out(
            image_bytes(table, listings, checksums, streams),
            table,
            listings,
            checksums,
            streams,
        ),
{
    let image = image_bytes(table, listings, checksums, streams);
    let body = body_bytes(table, listings, checksums, streams);
    let first = first_payload_offset(table, streams.len());
    let directory = directory_bytes(checksums, streams, first, streams.len());
    let payloads = joined(streams, streams.len());
    lemma_auto_spec_u64_to_from_le_bytes();
    lemma_directory_length(checksums, streams, first, streams.len());
    assert(image.subrange(0, 8) =~= magic());
    assert(image.subrange(8, 16) =~= spec_u64_to_le_bytes(xxh3_digest(body)));
    assert(image.subrange(16, image.len() as int) =~= body);
    assert(image.subrange(16, 24) =~= spec_u64_to_le_bytes(table.len() as u64));
    assert(image.subrange(24, 32) =~= spec_u64_to_le_bytes(listings as u64));
    assert(image.subrange(32, 40) =~= spec_u64_to_le_bytes(streams.len() as u64));
    assert(image.subrange(TABLE_START as int, TABLE_START + table.len()) =~= table);
    assert(image.subrange(TABLE_START + table.len(), first) =~= directory);
    assert(image.subrange(first, image.len() as int) =~= payloads);
}

/// Entry `i` of the directory of an image says where compressed bundle
/// `i` lies and what its checksum is.
pub proof fn lemma_entry_read(
    image: Seq<u8>,
    table: Seq<u8>,
    listings: nat,
    checksums: Seq<u64>,
    streams: Seq<Seq<u8>>,
    i: nat,
)
    requires
        laid_out(image, table, listings, checksums, streams),
        i < streams.len(),
    ensures
        entry_fits(image, i as int),
        payload_fits(image, i as int),
        payload(image, i as int) == streams[i as int],
        bundle_checksum(image, i as int) == checksums[i as int],
{
    let count = streams.len();
    let first = first_payload_offset(table, count);
    let offset = first + joined(streams, i).len();
    let size = streams[i as int].len() as int;
    let entry = entry_bytes(offset, size, checksums[i as int]);
    let at = entry_start(image, i as int);
    lemma_auto_spec_u64_to_from_le_bytes();
    lemma_entry_in_directory(checksums, streams, first, i, count);
    lemma_part_in_joined(streams, i, count);
    assert(at + ENTRY_LENGTH <= first) by (nonlinear_arith)
        requires
            at == TABLE_START + table.len() + ENTRY_LENGTH * i,
            first == TABLE_START + table.len() + ENTRY_LENGTH * count,
            i < count,
    ;
    assert(image.subrange(at, at + 8) =~= entry.subrange(0, 8));
    assert(image.subrange(at + 8, at + 16) =~= entry.subrange(8, 16));
    assert(image.subrange(at + 16, at + 24) =~= entry.subrange(16, 24));
    assert(entry.subrange(0, 8) =~= spec_u64_to_le_bytes(offset as u64));
    assert(entry.subrange(8, 16) =~= spec_u64_to_le_bytes(size as u64));
    assert(entry.subrange(16, 24) =~= spec_u64_to_le_bytes(checksums[i as int]));
}

/// The bundles of an image decode to the bundles that were compressed,
/// if the compressor's streams can be restored.
pub proof fn lemma_bundles_read(
    image: Seq<u8>,
    table: Seq<u8>,
    listings: nat,
    bundles: Seq<Seq<u8>>,
    n: nat,
)
    requires
        laid_out(image, table, listings, checksums_of(bundles), streams_of(bundles)),
        restorable(bundles),
        n <= bundles.len(),
    ensures
        bundles_upto(image, n) == Ok::<Seq<Seq<u8>>, Failure>(bundles.subrange(0, n as int)),
    decreases n,
{
    if n == 0 {
        assert(bundles.subrange(0, 0) =~= Seq::<Seq<u8>>::empty());
    } else {
        lemma_bundles_read(image, table, listings, bundles, (n - 1) as nat);
        lemma_entry_read(
            image,
            table,
            listings,
            checksums_of(bundles),
            streams_of(bundles),
            (n - 1) as nat,
        );
        assert(bundles.subrange(0, n as int) =~= bundles.subrange(0, n - 1).push(bundles[n - 1]));
    }
}

/// A record that lies in an image at `at` is read back field by field.
pub proof fn lemma_record_read(image: Seq<u8>, at: int, listing: ListingView, place: Place)
    requires
        0 <= at,
        at + record_bytes(listing, place).len() <= image.len(),
        image.subrange(at, at + record_bytes(listing, place).len()) == record_bytes(
            listing,
            place,
        ),
        image.len() <= u64::MAX,
        place.bundle <= u64::MAX,
        place.offset <= u64::MAX,
        listing.content.len() <= u64::MAX,
    ensures
        u64_at(image, at) == RECORD_FIXED_LENGTH + listing.path_bytes().len(),
        record_fits(image, at),
        record_at(image, at) == (Record {
            bundle_index: place.bundle as u64,
            offset: place.offset as u64,
            file_size: listing.content.len() as u64,
            permissions: listing.permissions,
            checksum: listing.content_checksum,
            path: listing.path_bytes(),
        }),
{
    let record = record_bytes(listing, place);
    let total = RECORD_FIXED_LENGTH + listing.path_bytes().len();
    lemma_auto_spec_u64_to_from_le_bytes();
    lemma_auto_spec_u32_to_from_le_bytes();
    assert(image.subrange(at, at + 8) =~= record.subrange(0, 8));
    assert(image.subrange(at + 8, at + 16) =~= record.subrange(8, 16));
    assert(image.subrange(at + 16, at + 24) =~= record.subrange(16, 24));
    assert(image.subrange(at + 24, at + 32) =~= record.subrange(24, 32));
    assert(image.subrange(at + 32, at + 36) =~= record.subrange(32, 36));
    assert(image.subrange(at + 36, at + 44) =~= record.subrange(36, 44));
    assert(image.subrange(at + 44, at + total) =~= record.subrange(44, total as int));
    assert(record.subrange(0, 8) =~= spec_u64_to_le_bytes(total as u64));
    assert(record.subrange(8, 16) =~= spec_u64_to_le_bytes(place.bundle as u64));
    assert(record.subrange(16, 24) =~= spec_u64_to_le_bytes(place.offset as u64));
    assert(record.subrange(24, 32) =~= spec_u64_to_le_bytes(listing.content.len() as u64));
    assert(record.subrange(32, 36) =~= spec_u32_to_le_bytes(listing.permissions));
    assert(record.subrange(36, 44) =~= spec_u64_to_le_bytes(listing.content_checksum));
    assert(record.subrange(44, total as int) =~= listing.path_bytes());
}

/// The bundles are small enough for their sizes to be stored.
pub open spec fn bundles_fit(bundles: Seq<Seq<u8>>) -> bool {
    forall|i: int| 0 <= i < bundles.len() ==> (#[trigger] bundles[i]).len() <= u64::MAX
}

/// Record `k` of the image of `listings` starts behind the records
/// before it and decodes to listing `k`.
pub proof fn lemma_listing_read(listings: Seq<ListingView>, image: Seq<u8>, k: nat)
    requires
        laid_out(
            image,
            table_bytes(listings, listings.len()),
            listings.len(),
            checksums_of(packed_bundles(listings)),
            streams_of(packed_bundles(listings)),
        ),
        bundles_fit(packed_bundles(listings)),
        all_consistent(listings),
        k < listings.len(),
    ensures
        record_start(image, k) == TABLE_START + table_bytes(listings, k).len(),
        record_start(image, (k + 1) as nat) == TABLE_START + table_bytes(
            listings,
            (k + 1) as nat,
        ).len(),
        listing_at(image, packed_bundles(listings), k) == Ok::<ListingView, Failure>(
            listings[k as int],
        ),
    decreases k,
{
    let count = listings.len();
    let table = table_bytes(listings, count);
    let listing = listings[k as int];
    let place = place_of(listings, k);
    let record = record_bytes(listing, place);
    let at = TABLE_START + table_bytes(listings, k).len();
    if k > 0 {
        lemma_listing_read(listings, image, (k - 1) as nat);
    }
    lemma_record_in_table(listings, k, count);
    lemma_record_length(listing, place);
    lemma_content_stays(listings, k, count);
    assert(image.subrange(at, at + record.len()) =~= table.subrange(
        table_bytes(listings, k).len() as int,
        table_bytes(listings, (k + 1) as nat).len() as int,
    ));
    lemma_record_read(image, at, listing, place);
    encode_utf8_valid_utf8(listing.path);
    encode_utf8_decode_utf8(listing.path);
    if is_directory(listing.permissions) {
        assert(listing.content =~= Seq::<u8>::empty());
    }
}

/// The first `k` records of the image of `listings` decode to the first
/// `k` listings.
pub proof fn lemma_listings_read(listings: Seq<ListingView>, image: Seq<u8>, k: nat)
    requires
        laid_out(
            image,
            table_bytes(listings, listings.len()),
            listings.len(),
            checksums_of(packed_bundles(listings)),
            streams_of(packed_bundles(listings)),
        ),
        bundles_fit(packed_bundles(listings)),
        all_consistent(listings),
        k <= listings.len(),
    ensures
        listings_upto(image, packed_bundles(listings), k) == Ok::<Seq<ListingView>, Failure>(
            listings.subrange(0, k as int),
        ),
    decreases k,
{
    if k == 0 {
        assert(listings.subrange(0, 0) =~= Seq::<ListingView>::empty());
    } else {
        lemma_listings_read(listings, image, (k - 1) as nat);
        lemma_listing_read(listings, image, (k - 1) as nat);
        assert(listings.subrange(0, k as int) =~= listings.subrange(0, k - 1).push(
            listings[k - 1],
        ));
    }
}

/// Listings are small enough for an image: the image and each bundle are
/// no longer than a stored length can say.
pub open spec fn encodable(listings: Seq<ListingView>) -> bool {
    &&& archive_bytes(listings).len() <= u64::MAX
    &&& bundles_fit(packed_bundles(listings))
}

/// Decoding undoes encoding: the image of consistent listings decodes to
/// these listings, in their order, provided that the decompressor restores
/// what the compressor made of each bundle.
pub proof fn lemma_decoding_undoes_encoding(listings: Seq<ListingView>)
    requires
        all_consistent(listings),
        encodable(listings),
        restorable(packed_bundles(listings)),
    ensures
        decoded(archive_bytes(listings)) == Ok::<Seq<ListingView>, Failure>(listings),
{
    let count = listings.len();
    let bundles = packed_bundles(listings);
    let table = table_bytes(listings, count);
    let image = archive_bytes(listings);
    lemma_bundles_grow(listings, 0, count);
    lemma_table_prefix(listings, count, count);
    lemma_image_laid_out(table, count, checksums_of(bundles), streams_of(bundles));
    lemma_bundles_read(image, table, count, bundles, bundles.len());
    assert(bundles.subrange(0, bundles.len() as int) =~= bundles);
    lemma_listings_read(listings, image, count);
    assert(listings.subrange(0, count as int) =~= listings);
}

/// An archive keeps the order of its listings: the listing table of the
/// image of sorted listings decodes to sorted listings.
pub proof fn lemma_archive_keeps_order(listings: Seq<ListingView>)
    requires
        all_consistent(listings),
        encodable(listings),
        restorable(packed_bundles(listings)),
        sorted(listings),
    ensures
        decoded(archive_bytes(listings)) matches Ok(stored) && sorted(stored),
{
    lemma_decoding_undoes_encoding(listings);
}

} // verus!
