//! Decoding an archive image into listings.

use crate::checksum::xxh3;
use crate::compress::zstd_decompress;
use crate::error::{DecafError, Failure};
use crate::format::{
    bundle_count, bundles_upto, checked_bundle, decoded, entry_start, frame_failure, listings_upto,
    magic, parsed_record, record_listing, record_start, Record, ENTRY_LENGTH, MINIMUM_LENGTH,
    RECORD_FIXED_LENGTH, TABLE_START,
};
use crate::listing::{has_directory_bit, views, Listing, ListingView};
use crate::text::utf8_string;
use crate::wire::{read_u32, read_u64, u64_at};
use vstd::prelude::*;
use vstd::slice::*;
use vstd::utf8::*;

verus! {

/// The contents of a vector of byte buffers.
pub open spec fn rows(buffers: Seq<Vec<u8>>) -> Seq<Seq<u8>> {
    buffers.map_values(|buffer: Vec<u8>| buffer@)
}

/// A decoder's answer as a mathematical value.
pub open spec fn outcome_view(outcome: Result<Vec<Listing>, DecafError>) -> Result<
    Seq<ListingView>,
    Failure,
> {
    match outcome {
        Ok(listings) => Ok(views(listings@)),
        Err(error) => Err(error@),
    }
}

/// An accepted or refused bundle as a mathematical value.
pub open spec fn bundle_view(outcome: Result<Vec<u8>, DecafError>) -> Result<Seq<u8>, Failure> {
    match outcome {
        Ok(data) => Ok(data@),
        Err(error) => Err(error@),
    }
}

/// Bundles or a failure as a mathematical value.
pub open spec fn bundles_view(outcome: Result<Vec<Vec<u8>>, DecafError>) -> Result<
    Seq<Seq<u8>>,
    Failure,
> {
    match outcome {
        Ok(bundles) => Ok(rows(bundles@)),
        Err(error) => Err(error@),
    }
}

/// Once a bundle fails, the failure stands for every longer prefix.
pub proof fn lemma_bundle_failure_stands(input: Seq<u8>, k: nat, n: nat)
    requires
        k <= n,
        bundles_upto(input, k) is Err,
    ensures
        bundles_upto(input, n) == bundles_upto(input, k),
    decreases n - k,
{
    if k < n {
        lemma_bundle_failure_stands(input, k, (n - 1) as nat);
    }
}

/// Once a listing fails, the failure stands for every longer prefix.
pub proof fn lemma_listing_failure_stands(input: Seq<u8>, bundles: Seq<Seq<u8>>, k: nat, n: nat)
    requires
        k <= n,
        listings_upto(input, bundles, k) is Err,
    ensures
        listings_upto(input, bundles, n) == listings_upto(input, bundles, k),
    decreases n - k,
{
    if k < n {
        lemma_listing_failure_stands(input, bundles, k, (n - 1) as nat);
    }
}

/// Whether `input` starts with the magic number.
fn has_magic(input: &[u8]) -> (b: bool)
    requires
        input.len() >= 8,
    ensures
        b == (input@.subrange(0, 8) == magic()),
{
    let b: bool = input[0] == 0x69 && input[1] == 0x61 && input[2] == 0x6d && input[3] == 0x64
        && input[4] == 0x65 && input[5] == 0x63 && input[6] == 0x61 && input[7] == 0x66;
    proof {
        let head = input@.subrange(0, 8);
        if b {
            assert(head =~= magic());
        }
    }
    b
}

/// Checks the framing of an archive image: its length, its magic number
/// and the checksum of its body.
pub fn check_frame(input: &[u8]) -> (outcome: Result<(), DecafError>)
    ensures
        match outcome {
            Ok(_) => frame_failure(input@) is None,
            Err(error) => frame_failure(input@) == Some(error@),
        },
{
    let length: usize = input.len();
    if length < MINIMUM_LENGTH {
        return Err(DecafError::TooSmall { length });
    }
    if !has_magic(input) {
        return Err(DecafError::BadMagic);
    }
    let stored: u64 = read_u64(input, 8);
    let actual: u64 = xxh3(slice_subrange(input, 16, length));
    if stored != actual {
        return Err(DecafError::BadArchiveChecksum);
    }
    Ok(())
}

/// Decides on a bundle once the decompressor has answered: a failure of
/// the decompressor is passed on, and decompressed data is kept exactly if
/// its digest is the expected one.
pub fn accept_bundle(outcome: Result<Vec<u8>, String>, expected: u64, index: u64) -> (accepted:
    Result<Vec<u8>, DecafError>)
    ensures
        match outcome {
            Ok(data) => bundle_view(accepted) == checked_bundle(data@, expected, index),
            Err(text) => accepted == Err::<Vec<u8>, DecafError>(DecafError::Io { message: text }),
        },
{
    match outcome {
        Err(message) => Err(DecafError::Io { message }),
        Ok(data) => {
            let actual: u64 = xxh3(data.as_slice());
            if actual != expected {
                Err(DecafError::BadBundleChecksum { bundle: index })
            } else {
                Ok(data)
            }
        },
    }
}

/// Decompresses and checks every bundle of the directory, in order. The
/// first bundle that fails ends it: `Malformed` if it leaves the input,
/// `Io` if the decompressor does not accept it, `BadBundleChecksum` if
/// its digest is not the stored one.
pub fn read_bundles(input: &[u8]) -> (outcome: Result<Vec<Vec<u8>>, DecafError>)
    requires
        input.len() >= MINIMUM_LENGTH,
    ensures
        bundles_view(outcome) == bundles_upto(input@, bundle_count(input@) as nat),
{
    let length: usize = input.len();
    let table: u64 = read_u64(input, 16);
    let count: u64 = read_u64(input, 32);
    let mut bundles: Vec<Vec<u8>> = Vec::new();
    assert(rows(bundles@) =~= Seq::<Seq<u8>>::empty());
    if count == 0 {
        return Ok(bundles);
    }
    if table > (length - TABLE_START) as u64 {
        proof {
            assert(bundles_upto(input@, 0) is Ok);
            lemma_bundle_failure_stands(input@, 1, count as nat);
        }
        return Err(DecafError::Malformed);
    }
    let mut at: usize = TABLE_START + table as usize;
    let mut i: u64 = 0;
    while i < count
        invariant
            length == input.len(),
            i <= count,
            count == bundle_count(input@),
            at <= length,
            at == entry_start(input@, i as int),
            bundles@.len() == i,
            bundles_upto(input@, i as nat) == Ok::<Seq<Seq<u8>>, Failure>(rows(bundles@)),
        decreases count - i,
    {
        if length - at < ENTRY_LENGTH {
            proof {
                lemma_bundle_failure_stands(input@, (i + 1) as nat, count as nat);
            }
            return Err(DecafError::Malformed);
        }
        let offset: u64 = read_u64(input, at);
        let size: u64 = read_u64(input, at + 8);
        let expected: u64 = read_u64(input, at + 16);
        if offset > length as u64 || size > length as u64 - offset {
            proof {
                lemma_bundle_failure_stands(input@, (i + 1) as nat, count as nat);
            }
            return Err(DecafError::Malformed);
        }
        let stream = slice_subrange(input, offset as usize, (offset + size) as usize);
        match accept_bundle(zstd_decompress(stream), expected, i) {
            Err(error) => {
                proof {
                    lemma_bundle_failure_stands(input@, (i + 1) as nat, count as nat);
                }
                return Err(error);
            },
            Ok(data) => {
                proof {
                    assert(rows(bundles@.push(data)) =~= rows(bundles@).push(data@));
                }
                bundles.push(data);
            },
        }
        at = at + ENTRY_LENGTH;
        i = i + 1;
    }
    Ok(bundles)
}

/// A listing record as it was read from the table.
pub struct RawRecord {
    pub bundle_index: u64,
    pub offset: u64,
    pub file_size: u64,
    pub permissions: u32,
    pub checksum: u64,
    pub path: String,
}

impl View for RawRecord {
    type V = Record;

    open spec fn view(&self) -> Record {
        Record {
            bundle_index: self.bundle_index,
            offset: self.offset,
            file_size: self.file_size,
            permissions: self.permissions,
            checksum: self.checksum,
            path: encode_utf8(self.path@),
        }
    }
}

/// Reads the listing record at `at` and says where the next one starts.
pub fn read_record(input: &[u8], at: usize) -> (outcome: Result<(RawRecord, usize), DecafError>)
    requires
        at <= input.len(),
    ensures
        match outcome {
            Ok((record, next)) => {
                &&& parsed_record(input@, at as int) == Ok::<Record, Failure>(record@)
                &&& next == at + u64_at(input@, at as int)
                &&& next <= input.len()
            },
            Err(error) => parsed_record(input@, at as int) == Err::<Record, Failure>(error@),
        },
{
    let length: usize = input.len();
    if length - at < RECORD_FIXED_LENGTH {
        return Err(DecafError::Malformed);
    }
    let total: u64 = read_u64(input, at);
    if total < RECORD_FIXED_LENGTH as u64 || total > (length - at) as u64 {
        return Err(DecafError::Malformed);
    }
    let bundle_index: u64 = read_u64(input, at + 8);
    let offset: u64 = read_u64(input, at + 16);
    let file_size: u64 = read_u64(input, at + 24);
    let permissions: u32 = read_u32(input, at + 32);
    let checksum: u64 = read_u64(input, at + 36);
    let next: usize = at + total as usize;
    let path_bytes = slice_subrange(input, at + RECORD_FIXED_LENGTH, next);
    match utf8_string(path_bytes) {
        None => Err(DecafError::InvalidPath),
        Some(path) => Ok(
            (RawRecord { bundle_index, offset, file_size, permissions, checksum, path }, next),
        ),
    }
}

/// A listing or a failure as a mathematical value.
pub open spec fn listing_view(outcome: Result<Listing, DecafError>) -> Result<
    ListingView,
    Failure,
> {
    match outcome {
        Ok(listing) => Ok(listing@),
        Err(error) => Err(error@),
    }
}

/// Turns a record into its listing: a bare directory, or a file whose
/// content is cut out of its bundle and checked against the record.
pub fn listing_from(record: RawRecord, bundles: &Vec<Vec<u8>>) -> (outcome: Result<
    Listing,
    DecafError,
>)
    ensures
        listing_view(outcome) == record_listing(record@, rows(bundles@)),
{
    proof {
        encode_utf8_decode_utf8(record.path@);
    }
    if has_directory_bit(record.permissions) {
        let listing = Listing {
            path: record.path,
            permissions: record.permissions,
            content_checksum: 0,
            content: Vec::new(),
        };
        return Ok(listing);
    }
    if record.bundle_index >= bundles.len() as u64 {
        return Err(DecafError::Malformed);
    }
    let bundle = &bundles[record.bundle_index as usize];
    let available: u64 = bundle.len() as u64;
    if record.offset > available || record.file_size > available - record.offset {
        return Err(DecafError::Malformed);
    }
    let content = slice_to_vec(
        slice_subrange(
            bundle.as_slice(),
            record.offset as usize,
            (record.offset + record.file_size) as usize,
        ),
    );
    let actual: u64 = xxh3(content.as_slice());
    if actual != record.checksum {
        return Err(
            DecafError::BadListingChecksum {
                path: record.path,
                expected: record.checksum,
                actual,
                bundle: record.bundle_index,
                offset: record.offset,
                size: record.file_size,
            },
        );
    }
    Ok(
        Listing {
            path: record.path,
            permissions: record.permissions,
            content_checksum: record.checksum,
            content,
        },
    )
}

/// Checks a record against the bundles without copying content: a bare
/// directory passes; a file passes if its content lies in its bundle and
/// has the digest that the record says.
pub fn check_record(record: &RawRecord, bundles: &Vec<Vec<u8>>) -> (outcome: Result<
    (),
    DecafError,
>)
    ensures
        match outcome {
            Ok(_) => record_listing(record@, rows(bundles@)) is Ok,
            Err(error) => record_listing(record@, rows(bundles@)) == Err::<ListingView, Failure>(
                error@,
            ),
        },
{
    proof {
        encode_utf8_decode_utf8(record.path@);
    }
    if has_directory_bit(record.permissions) {
        return Ok(());
    }
    if record.bundle_index >= bundles.len() as u64 {
        return Err(DecafError::Malformed);
    }
    let bundle = &bundles[record.bundle_index as usize];
    let available: u64 = bundle.len() as u64;
    assert(rows(bundles@)[record.bundle_index as int] == bundle@);
    if record.offset > available || record.file_size > available - record.offset {
        return Err(DecafError::Malformed);
    }
    let actual: u64 = xxh3(
        slice_subrange(
            bundle.as_slice(),
            record.offset as usize,
            (record.offset + record.file_size) as usize,
        ),
    );
    if actual != record.checksum {
        return Err(
            DecafError::BadListingChecksum {
                path: record.path.clone(),
                expected: record.checksum,
                actual,
                bundle: record.bundle_index,
                offset: record.offset,
                size: record.file_size,
            },
        );
    }
    Ok(())
}

/// Reads `count` listing records from the table of `input`, cutting each
/// file's content out of `bundles` and checking it.
pub fn read_listings(input: &[u8], bundles: &Vec<Vec<u8>>, count: u64) -> (outcome: Result<
    Vec<Listing>,
    DecafError,
>)
    ensures
        outcome_view(outcome) == listings_upto(input@, rows(bundles@), count as nat),
{
    let ghost data = rows(bundles@);
    let mut listings: Vec<Listing> = Vec::new();
    assert(views(listings@) =~= Seq::<ListingView>::empty());
    if input.len() < TABLE_START {
        if count == 0 {
            return Ok(listings);
        }
        proof {
            assert(listings_upto(input@, data, 0) is Ok);
            lemma_listing_failure_stands(input@, data, 1, count as nat);
        }
        return Err(DecafError::Malformed);
    }
    let mut at: usize = TABLE_START;
    let mut k: u64 = 0;
    while k < count
        invariant
            data == rows(bundles@),
            k <= count,
            at <= input.len(),
            at == record_start(input@, k as nat),
            listings_upto(input@, data, k as nat) == Ok::<Seq<ListingView>, Failure>(
                views(listings@),
            ),
        decreases count - k,
    {
        let (record, next) = match read_record(input, at) {
            Err(error) => {
                proof {
                    lemma_listing_failure_stands(input@, data, (k + 1) as nat, count as nat);
                }
                return Err(error);
            },
            Ok(read) => read,
        };
        let listing = match listing_from(record, bundles) {
            Err(error) => {
                proof {
                    lemma_listing_failure_stands(input@, data, (k + 1) as nat, count as nat);
                }
                return Err(error);
            },
            Ok(listing) => listing,
        };
        assert(views(listings@.push(listing)) =~= views(listings@).push(listing@));
        listings.push(listing);
        at = next;
        k = k + 1;
    }
    Ok(listings)
}

/// Decodes an archive image into its listings, in the order of the table.
///
/// The framing is checked, then every bundle in order, then every
/// listing in order; the first failure is the answer.
pub fn unarchive_to_listings(input: &[u8]) -> (outcome: Result<Vec<Listing>, DecafError>)
    ensures
        outcome_view(outcome) == decoded(input@),
{
    match check_frame(input) {
        Err(error) => {
            return Err(error);
        },
        Ok(_) => {},
    }
    let bundles = match read_bundles(input) {
        Err(error) => {
            return Err(error);
        },
        Ok(bundles) => bundles,
    };
    let count: u64 = read_u64(input, 24);
    read_listings(input, &bundles, count)
}

} // verus!
