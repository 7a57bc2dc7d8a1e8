//! Encoding listings into an archive image.

use crate::checksum::{xxh3, xxh3_digest};
use crate::compress::{zstd_accepts, zstd_compress, zstd_compresses, zstd_content};
use crate::decode::rows;
use crate::error::{DecafError, Failure};
use crate::format::{decoded, ENTRY_LENGTH};
use crate::layout::{
    archive_bytes, body_bytes, bundles_after, checksums_of, directory_bytes, entry_bytes,
    image_bytes, joined, packed_bundles, streams_of, table_bytes, COMPRESSION_LEVEL,
    TARGET_BUNDLE_SIZE,
};
use crate::listing::{all_consistent, views, Listing, ListingView};
use crate::roundtrip::lemma_decoding_undoes_encoding;
use crate::wire::{overwritten, push_bytes, push_u32, push_u64, store_u64, zeros};
use vstd::bytes::*;
use vstd::prelude::*;

verus! {

/// The listing table and the bundles of a sequence of listings.
pub struct Packed {
    /// The listing records, one after the other.
    pub table: Vec<u8>,
    /// The uncompressed bundles.
    pub bundles: Vec<Vec<u8>>,
}

/// Packs listings into bundles and writes their records.
///
/// Each listing goes whole into the last bundle, unless that bundle has
/// already grown beyond the target size: then a new bundle is started.
pub fn pack_listings(listings: &Vec<Listing>) -> (packed: Packed)
    ensures
        packed.table@ == table_bytes(views(listings@), listings@.len()),
        rows(packed.bundles@) == packed_bundles(views(listings@)),
{
    let ghost all = views(listings@);
    let count: usize = listings.len();
    let mut table: Vec<u8> = Vec::new();
    let mut closed: Vec<Vec<u8>> = Vec::new();
    let mut current: Vec<u8> = Vec::new();
    let mut k: usize = 0;
    while k < count
        invariant
            all == views(listings@),
            count == listings.len(),
            k <= count,
            bundles_after(all, k as nat) == rows(closed@).push(current@),
            table@ == table_bytes(all, k as nat),
        decreases count - k,
    {
        if current.len() > TARGET_BUNDLE_SIZE {
            closed.push(current);
            current = Vec::new();
        }
        let listing = &listings[k];
        let start: usize = table.len();
        push_u64(&mut table, 0);
        push_u64(&mut table, closed.len() as u64);
        push_u64(&mut table, current.len() as u64);
        push_u64(&mut table, listing.content.len() as u64);
        push_u32(&mut table, listing.permissions);
        push_u64(&mut table, listing.content_checksum);
        push_bytes(&mut table, listing.path.as_str().as_bytes());
        let total: usize = table.len() - start;
        proof {
            lemma_auto_spec_u64_to_from_le_bytes();
            lemma_auto_spec_u32_to_from_le_bytes();
        }
        store_u64(&mut table, start, total as u64);
        push_bytes(&mut current, listing.content.as_slice());
        k = k + 1;
    }
    closed.push(current);
    Packed { table, bundles: closed }
}

/// Every directory entry is 24 bytes long.
pub proof fn lemma_directory_length(
    checksums: Seq<u64>,
    streams: Seq<Seq<u8>>,
    first: int,
    n: nat,
)
    ensures
        directory_bytes(checksums, streams, first, n).len() == ENTRY_LENGTH * n,
    decreases n,
{
    lemma_auto_spec_u64_to_from_le_bytes();
    if n > 0 {
        lemma_directory_length(checksums, streams, first, (n - 1) as nat);
    }
}

/// Joining more parts gives no less.
pub proof fn lemma_joined_grows(parts: Seq<Seq<u8>>, i: nat, n: nat)
    requires
        i <= n,
    ensures
        joined(parts, i).len() <= joined(parts, n).len(),
    decreases n - i,
{
    if i < n {
        lemma_joined_grows(parts, i, (n - 1) as nat);
    }
}

/// Writes a directory entry over the 24 bytes at `at`.
fn store_entry(image: &mut Vec<u8>, at: usize, offset: u64, size: u64, checksum: u64)
    requires
        at + ENTRY_LENGTH <= old(image).len(),
    ensures
        final(image)@ == overwritten(
            old(image)@,
            at as int,
            entry_bytes(offset as int, size as int, checksum),
        ),
{
    proof {
        lemma_auto_spec_u64_to_from_le_bytes();
    }
    store_u64(image, at, offset);
    store_u64(image, at + 8, size);
    store_u64(image, at + 16, checksum);
}

/// Builds the image from its parts: the listing table, the number of
/// listings, and for each bundle its checksum and its compressed bytes.
pub fn assemble_image(
    table: &Vec<u8>,
    listings: u64,
    checksums: &Vec<u64>,
    streams: &Vec<Vec<u8>>,
) -> (image: Vec<u8>)
    requires
        checksums.len() == streams.len(),
    ensures
        image@ == image_bytes(table@, listings as nat, checksums@, rows(streams@)),
{
    let ghost parts = rows(streams@);
    let count: usize = streams.len();
    let mut image: Vec<u8> = Vec::new();
    image.push(0x69);
    image.push(0x61);
    image.push(0x6d);
    image.push(0x64);
    image.push(0x65);
    image.push(0x63);
    image.push(0x61);
    image.push(0x66);
    push_u64(&mut image, 0);
    push_u64(&mut image, table.len() as u64);
    push_u64(&mut image, listings);
    push_u64(&mut image, count as u64);
    push_bytes(&mut image, table.as_slice());
    let ghost front = image@;
    let directory_at: usize = image.len();
    proof {
        lemma_auto_spec_u64_to_from_le_bytes();
    }
    let mut i: usize = 0;
    while i < count
        invariant
            i <= count,
            image@ == front + zeros((ENTRY_LENGTH * i) as nat),
        decreases count - i,
    {
        push_u64(&mut image, 0);
        push_u64(&mut image, 0);
        push_u64(&mut image, 0);
        proof {
            lemma_auto_spec_u64_to_from_le_bytes();
            lemma_zero_bytes(spec_u64_to_le_bytes(0));
        }
        i = i + 1;
    }
    let first: usize = image.len();
    let ghost blank = image@;
    i = 0;
    while i < count
        invariant
            i <= count,
            count == streams.len(),
            parts == rows(streams@),
            image@ == blank + joined(parts, i as nat),
        decreases count - i,
    {
        push_bytes(&mut image, streams[i].as_slice());
        i = i + 1;
    }
    let ghost payload = joined(parts, count as nat);
    let mut offset: usize = first;
    i = 0;
    while i < count
        invariant
            i <= count,
            count == streams.len(),
            count == checksums.len(),
            parts == rows(streams@),
            payload == joined(parts, count as nat),
            front.len() == directory_at,
            first == directory_at + ENTRY_LENGTH * count,
            image@.len() == first + payload.len(),
            offset == first + joined(parts, i as nat).len(),
            image@ == front + directory_bytes(checksums@, parts, first as int, i as nat) + zeros(
                (ENTRY_LENGTH * (count - i)) as nat,
            ) + payload,
        decreases count - i,
    {
        let size: usize = streams[i].len();
        proof {
            lemma_joined_grows(parts, (i + 1) as nat, count as nat);
            assert(offset + size <= image.len());
            lemma_directory_length(checksums@, parts, first as int, (i + 1) as nat);
        }
        store_entry(
            &mut image,
            directory_at + ENTRY_LENGTH * i,
            offset as u64,
            size as u64,
            checksums[i],
        );
        offset = offset + size;
        i = i + 1;
    }
    let ghost body = body_bytes(table@, listings as nat, checksums@, parts);
    proof {
        assert(image@.subrange(16, image@.len() as int) =~= body);
    }
    let digest: u64 = xxh3(vstd::slice::slice_subrange(image.as_slice(), 16, image.len()));
    store_u64(&mut image, 8, digest);
    image
}

/// The compressor gives a stream for every bundle.
pub open spec fn compressible(bundles: Seq<Seq<u8>>) -> bool {
    forall|i: int|
        0 <= i < bundles.len() ==> zstd_compresses(
            #[trigger] bundles[i],
            COMPRESSION_LEVEL,
            false,
            false,
        )
}

/// What the compressor made of every bundle, the decompressor accepts
/// and turns back into that bundle.
pub open spec fn restorable(bundles: Seq<Seq<u8>>) -> bool {
    forall|i: int|
        0 <= i < bundles.len() ==> zstd_accepts(#[trigger] streams_of(bundles)[i]) && zstd_content(
            streams_of(bundles)[i],
        ) == bundles[i]
}

/// Bundles with their checksums, compressed.
pub struct Compressed {
    /// The XXH3 digest of each uncompressed bundle.
    pub checksums: Vec<u64>,
    /// Each bundle as a zstd stream.
    pub streams: Vec<Vec<u8>>,
}

/// Takes the digest of every bundle and compresses it. It succeeds if
/// the compressor gives a stream for every bundle, and fails with `Io`
/// if not.
pub fn compress_bundles(bundles: &Vec<Vec<u8>>) -> (outcome: Result<Compressed, DecafError>)
    ensures
        outcome is Ok <==> compressible(rows(bundles@)),
        match outcome {
            Ok(compressed) => {
                &&& compressed.checksums@ == checksums_of(rows(bundles@))
                &&& rows(compressed.streams@) == streams_of(rows(bundles@))
                &&& restorable(rows(bundles@))
            },
            Err(error) => error@ is Io,
        },
{
    let ghost plain = rows(bundles@);
    let count: usize = bundles.len();
    let mut checksums: Vec<u64> = Vec::new();
    let mut streams: Vec<Vec<u8>> = Vec::new();
    let mut i: usize = 0;
    while i < count
        invariant
            i <= count,
            count == bundles.len(),
            plain == rows(bundles@),
            checksums@.len() == i,
            streams@.len() == i,
            forall|j: int| 0 <= j < i ==> checksums@[j] == xxh3_digest(plain[j]),
            forall|j: int| 0 <= j < i ==> (#[trigger] streams@[j])@ == streams_of(plain)[j],
            forall|j: int|
                0 <= j < i ==> zstd_accepts(#[trigger] streams_of(plain)[j]) && zstd_content(
                    streams_of(plain)[j],
                ) == plain[j],
            forall|j: int|
                0 <= j < i ==> zstd_compresses(
                    #[trigger] plain[j],
                    COMPRESSION_LEVEL,
                    false,
                    false,
                ),
        decreases count - i,
    {
        let bundle = &bundles[i];
        assert(plain[i as int] == bundle@);
        let digest: u64 = xxh3(bundle.as_slice());
        let stream = match zstd_compress(bundle.as_slice(), COMPRESSION_LEVEL, false, false) {
            Err(message) => {
                return Err(DecafError::Io { message });
            },
            Ok(stream) => stream,
        };
        checksums.push(digest);
        streams.push(stream);
        i = i + 1;
    }
    assert(checksums@ =~= checksums_of(plain));
    assert(rows(streams@) =~= streams_of(plain));
    Ok(Compressed { checksums, streams })
}

/// What encoding `listings` gives: their image if the compressor gives a
/// stream for every bundle, and `Io` if not.
pub open spec fn encoding(listings: Seq<ListingView>) -> Result<Seq<u8>, Failure> {
    if compressible(packed_bundles(listings)) {
        Ok(archive_bytes(listings))
    } else {
        Err(Failure::Io)
    }
}

/// An image or a failure as a mathematical value.
pub open spec fn image_view(outcome: Result<Vec<u8>, DecafError>) -> Result<Seq<u8>, Failure> {
    match outcome {
        Ok(image) => Ok(image@),
        Err(error) => Err(error@),
    }
}

/// Encodes listings into an archive image, in the order given.
///
/// The answer is the image that the format defines for these listings,
/// if the compressor gives a stream for every bundle, and `Io` if not.
/// An image of consistent listings decodes to these listings.
pub fn create_archive(listings: &Vec<Listing>) -> (outcome: Result<Vec<u8>, DecafError>)
    ensures
        image_view(outcome) == encoding(views(listings@)),
        outcome matches Ok(image) ==> {
            &&& restorable(packed_bundles(views(listings@)))
            &&& all_consistent(views(listings@)) ==> decoded(image@) == Ok::<
                Seq<ListingView>,
                Failure,
            >(views(listings@))
        },
{
    let packed = pack_listings(listings);
    let compressed = match compress_bundles(&packed.bundles) {
        Err(error) => {
            return Err(error);
        },
        Ok(compressed) => compressed,
    };
    assert(compressed.checksums@.len() == rows(packed.bundles@).len());
    assert(rows(compressed.streams@).len() == compressed.streams@.len());
    let image = assemble_image(
        &packed.table,
        listings.len() as u64,
        &compressed.checksums,
        &compressed.streams,
    );
    proof {
        let all = views(listings@);
        assert(image.len() <= u64::MAX);
        assert forall|i: int| 0 <= i < packed_bundles(all).len() implies (
        #[trigger] packed_bundles(all)[i]).len() <= u64::MAX by {
            assert(packed_bundles(all)[i] == packed.bundles@[i]@);
            assert(packed.bundles@[i].len() <= usize::MAX);
        }
        if all_consistent(all) {
            lemma_decoding_undoes_encoding(all);
        }
    }
    Ok(image)
}

/// Eight bytes that hold zero are zero.
proof fn lemma_zero_bytes(z: Seq<u8>)
    requires
        z.len() == 8,
        spec_u64_from_le_bytes(z) == 0,
    ensures
        z =~= zeros(8),
{
    lemma_auto_spec_u64_to_from_le_bytes();
    assert(spec_u64_to_le_bytes_open(0) == spec_u64_to_le_bytes(0)) by {
        spec_u64_to_le_bytes_to_open(0);
    }
    assert(0u64 & 0xff == 0 && (0u64 >> 8) & 0xff == 0 && (0u64 >> 16) & 0xff == 0 && (0u64 >> 24)
        & 0xff == 0 && (0u64 >> 32) & 0xff == 0 && (0u64 >> 40) & 0xff == 0 && (0u64 >> 48) & 0xff
        == 0 && (0u64 >> 56) & 0xff == 0) by (bit_vector);
}

} // verus!
