//! The archive image, stated as mathematics.
//!
//! ```text
//! offset 0   magic "iamdecaf"                     8 bytes
//!        8   XXH3 of everything from offset 16    8 bytes
//!       16   length of the listing table          8 bytes
//!       24   number of listing records            8 bytes
//!       32   number of bundles                    8 bytes
//!       40   listing records
//!            bundle directory, 24 bytes a bundle
//!            compressed bundles
//! ```
//!
//! All integers are little-endian. A listing record holds its own length,
//! the index of its bundle, the offset of its content in the uncompressed
//! bundle, the content's size, the mode bits (four bytes), the content's
//! XXH3 and the path, 44 bytes and the path in all. A directory entry
//! holds the offset of the compressed bundle from the start of the image,
//! its compressed size and the XXH3 of the uncompressed bundle.

use crate::checksum::xxh3_digest;
use crate::compress::{zstd_accepts, zstd_content};
use crate::error::Failure;
use crate::listing::{is_directory, ListingView};
use crate::wire::{u32_at, u64_at};
use vstd::prelude::*;
use vstd::utf8::*;

verus! {

/// No archive is shorter than this.
pub const MINIMUM_LENGTH: usize = 64;

/// Where the listing table starts.
pub const TABLE_START: usize = 40;

/// The length of a listing record without its path.
pub const RECORD_FIXED_LENGTH: usize = 44;

/// The length of an entry of the bundle directory.
pub const ENTRY_LENGTH: usize = 24;

/// The magic number: the ASCII bytes of `iamdecaf`.
pub open spec fn magic() -> Seq<u8> {
    seq![0x69u8, 0x61u8, 0x6du8, 0x64u8, 0x65u8, 0x63u8, 0x61u8, 0x66u8]
}

/// What is wrong with the framing of `input`, if anything: its length,
/// its magic number, its archive checksum, in this order.
pub open spec fn frame_failure(input: Seq<u8>) -> Option<Failure> {
    if input.len() < MINIMUM_LENGTH {
        Some(Failure::TooSmall { length: input.len() })
    } else if input.subrange(0, 8) != magic() {
        Some(Failure::BadMagic)
    } else if u64_at(input, 8) != xxh3_digest(input.subrange(16, input.len() as int)) {
        Some(Failure::BadArchiveChecksum)
    } else {
        None
    }
}

/// The stored length of the listing table.
pub open spec fn table_length(input: Seq<u8>) -> u64 {
    u64_at(input, 16)
}

/// The stored number of listing records.
pub open spec fn listing_count(input: Seq<u8>) -> u64 {
    u64_at(input, 24)
}

/// The stored number of bundles.
pub open spec fn bundle_count(input: Seq<u8>) -> u64 {
    u64_at(input, 32)
}

/// Where entry `i` of the bundle directory starts.
pub open spec fn entry_start(input: Seq<u8>, i: int) -> int {
    TABLE_START + table_length(input) + ENTRY_LENGTH * i
}

/// Entry `i` of the bundle directory lies inside the input.
pub open spec fn entry_fits(input: Seq<u8>, i: int) -> bool {
    entry_start(input, i) + ENTRY_LENGTH <= input.len()
}

/// The stored offset of compressed bundle `i`, from the start of the image.
pub open spec fn payload_offset(input: Seq<u8>, i: int) -> u64 {
    u64_at(input, entry_start(input, i))
}

/// The stored size of compressed bundle `i`.
pub open spec fn payload_size(input: Seq<u8>, i: int) -> u64 {
    u64_at(input, entry_start(input, i) + 8)
}

/// The stored checksum of uncompressed bundle `i`.
pub open spec fn bundle_checksum(input: Seq<u8>, i: int) -> u64 {
    u64_at(input, entry_start(input, i) + 16)
}

/// Compressed bundle `i` lies inside the input.
pub open spec fn payload_fits(input: Seq<u8>, i: int) -> bool {
    payload_offset(input, i) + payload_size(input, i) <= input.len()
}

/// The bytes of compressed bundle `i`.
pub open spec fn payload(input: Seq<u8>, i: int) -> Seq<u8> {
    input.subrange(
        payload_offset(input, i) as int,
        payload_offset(input, i) + payload_size(input, i),
    )
}

/// A decompressed bundle is accepted if it matches its stored checksum.
pub open spec fn checked_bundle(data: Seq<u8>, expected: u64, index: u64) -> Result<
    Seq<u8>,
    Failure,
> {
    if xxh3_digest(data) != expected {
        Err(Failure::BadBundleChecksum { bundle: index })
    } else {
        Ok(data)
    }
}

/// Bundle `i`, decompressed and checked: `Malformed` if its entry or
/// its compressed bytes leave the input, `Io` if the decompressor does
/// not accept the bytes.
pub open spec fn bundle_at(input: Seq<u8>, i: int) -> Result<Seq<u8>, Failure> {
    if !entry_fits(input, i) || !payload_fits(input, i) {
        Err(Failure::Malformed)
    } else if !zstd_accepts(payload(input, i)) {
        Err(Failure::Io)
    } else {
        checked_bundle(zstd_content(payload(input, i)), bundle_checksum(input, i), i as u64)
    }
}

/// The first `n` bundles in order, or the first failure among them.
pub open spec fn bundles_upto(input: Seq<u8>, n: nat) -> Result<Seq<Seq<u8>>, Failure>
    decreases n,
{
    if n == 0 {
        Ok(Seq::empty())
    } else {
        match bundles_upto(input, (n - 1) as nat) {
            Err(failure) => Err(failure),
            Ok(earlier) => match bundle_at(input, n - 1) {
                Err(failure) => Err(failure),
                Ok(bundle) => Ok(earlier.push(bundle)),
            },
        }
    }
}

/// Where listing record `k` starts: each record follows the one before.
pub open spec fn record_start(input: Seq<u8>, k: nat) -> int
    decreases k,
{
    if k == 0 {
        TABLE_START as int
    } else {
        record_start(input, (k - 1) as nat) + u64_at(input, record_start(input, (k - 1) as nat))
    }
}

/// A record at `at` lies inside the input and is long enough for its
/// fixed fields.
pub open spec fn record_fits(input: Seq<u8>, at: int) -> bool {
    &&& at + RECORD_FIXED_LENGTH <= input.len()
    &&& RECORD_FIXED_LENGTH <= u64_at(input, at)
    &&& at + u64_at(input, at) <= input.len()
}

/// The fields of a listing record.
pub struct Record {
    pub bundle_index: u64,
    pub offset: u64,
    pub file_size: u64,
    pub permissions: u32,
    pub checksum: u64,
    pub path: Seq<u8>,
}

/// The record stored at `at`.
pub open spec fn record_at(input: Seq<u8>, at: int) -> Record {
    Record {
        bundle_index: u64_at(input, at + 8),
        offset: u64_at(input, at + 16),
        file_size: u64_at(input, at + 24),
        permissions: u32_at(input, at + 32),
        checksum: u64_at(input, at + 36),
        path: input.subrange(at + RECORD_FIXED_LENGTH, at + u64_at(input, at)),
    }
}

/// The content that a record points at lies inside its bundle.
pub open spec fn content_fits(record: Record, bundles: Seq<Seq<u8>>) -> bool {
    &&& record.bundle_index < bundles.len()
    &&& record.offset + record.file_size <= bundles[record.bundle_index as int].len()
}

/// The content that a record points at.
pub open spec fn record_content(record: Record, bundles: Seq<Seq<u8>>) -> Seq<u8> {
    bundles[record.bundle_index as int].subrange(
        record.offset as int,
        record.offset + record.file_size,
    )
}

/// The record at `at`, if it lies inside the input and its path is valid
/// UTF-8.
pub open spec fn parsed_record(input: Seq<u8>, at: int) -> Result<Record, Failure> {
    if !record_fits(input, at) {
        Err(Failure::Malformed)
    } else if !valid_utf8(record_at(input, at).path) {
        Err(Failure::InvalidPath)
    } else {
        Ok(record_at(input, at))
    }
}

/// The listing that a record stands for. A record with the directory bit
/// is a bare directory whatever else it says; any other record is a file
/// whose content is cut out of its bundle and checked.
pub open spec fn record_listing(record: Record, bundles: Seq<Seq<u8>>) -> Result<
    ListingView,
    Failure,
> {
    if is_directory(record.permissions) {
        Ok(
            ListingView {
                path: decode_utf8(record.path),
                permissions: record.permissions,
                content_checksum: 0,
                content: Seq::empty(),
            },
        )
    } else if !content_fits(record, bundles) {
        Err(Failure::Malformed)
    } else if xxh3_digest(record_content(record, bundles)) != record.checksum {
        Err(
            Failure::BadListingChecksum {
                path: decode_utf8(record.path),
                expected: record.checksum,
                actual: xxh3_digest(record_content(record, bundles)),
                bundle: record.bundle_index,
                offset: record.offset,
                size: record.file_size,
            },
        )
    } else {
        Ok(
            ListingView {
                path: decode_utf8(record.path),
                permissions: record.permissions,
                content_checksum: record.checksum,
                content: record_content(record, bundles),
            },
        )
    }
}

/// Listing `k` of the table.
pub open spec fn listing_at(input: Seq<u8>, bundles: Seq<Seq<u8>>, k: nat) -> Result<
    ListingView,
    Failure,
> {
    match parsed_record(input, record_start(input, k)) {
        Err(failure) => Err(failure),
        Ok(record) => record_listing(record, bundles),
    }
}

/// The first `n` listings in table order, or the first failure among them.
pub open spec fn listings_upto(input: Seq<u8>, bundles: Seq<Seq<u8>>, n: nat) -> Result<
    Seq<ListingView>,
    Failure,
>
    decreases n,
{
    if n == 0 {
        Ok(Seq::empty())
    } else {
        match listings_upto(input, bundles, (n - 1) as nat) {
            Err(failure) => Err(failure),
            Ok(earlier) => match listing_at(input, bundles, (n - 1) as nat) {
                Err(failure) => Err(failure),
                Ok(listing) => Ok(earlier.push(listing)),
            },
        }
    }
}

/// What decoding `input` yields: the framing is checked, then every bundle
/// in order, then every listing in order, and the first failure wins.
/// `Io` says that the decompressor did not accept a bundle.
pub open spec fn decoded(input: Seq<u8>) -> Result<Seq<ListingView>, Failure> {
    match frame_failure(input) {
        Some(failure) => Err(failure),
        None => match bundles_upto(input, bundle_count(input) as nat) {
            Err(failure) => Err(failure),
            Ok(bundles) => listings_upto(input, bundles, listing_count(input) as nat),
        },
    }
}

} // verus!
