//! Decoding an archive image without copying file content: content is
//! checked where it lies, listings keep its place, and it is cut out
//! when a file is brought back.

use crate::checksum::{xxh3, xxh3_digest};
use crate::decode::{check_frame, check_record, read_bundles, read_record, rows, RawRecord};
use crate::error::{DecafError, Failure};
use crate::format::{
    bundle_count, bundles_upto, decoded, frame_failure, listing_count, listings_upto, parsed_record,
    record_listing, record_start, Record, TABLE_START,
};
use crate::listing::{has_directory_bit, is_directory, ListingView};
use crate::materialise::{step_of, steps, steps_of, FileAction, Step};
use crate::wire::read_u64;
use vstd::prelude::*;
use vstd::slice::*;
use vstd::utf8::*;

verus! {

/// One listing of an extracted archive. Its content stays in its bundle.
#[derive(Debug)]
pub struct ExtractedListing {
    /// Path relative to the archive root.
    pub path: String,
    /// POSIX mode bits.
    pub permissions: u32,
    /// XXH3 digest that the content must have; zero for a bare directory.
    pub content_checksum: u64,
    /// Length of the content; zero for a bare directory.
    pub filesize: u64,
    /// Index of the bundle that holds the content.
    pub bundle_idx: u64,
    /// Offset of the content in that bundle; zero for a bare directory.
    pub bundle_offset: u64,
}

/// An extracted listing as a mathematical value.
pub struct Entry {
    pub path: Seq<char>,
    pub permissions: u32,
    pub content_checksum: u64,
    pub filesize: u64,
    pub bundle_idx: u64,
    pub bundle_offset: u64,
}

impl View for ExtractedListing {
    type V = Entry;

    open spec fn view(&self) -> Entry {
        Entry {
            path: self.path@,
            permissions: self.permissions,
            content_checksum: self.content_checksum,
            filesize: self.filesize,
            bundle_idx: self.bundle_idx,
            bundle_offset: self.bundle_offset,
        }
    }
}

/// The entries of a vector of extracted listings, in order.
pub open spec fn entries(listings: Seq<ExtractedListing>) -> Seq<Entry> {
    listings.map_values(|listing: ExtractedListing| listing@)
}

/// The entry that a record stands for. A bare directory has neither
/// checksum nor size nor offset, whatever its record says.
pub open spec fn record_entry(record: Record) -> Entry {
    if is_directory(record.permissions) {
        Entry {
            path: decode_utf8(record.path),
            permissions: record.permissions,
            content_checksum: 0,
            filesize: 0,
            bundle_idx: record.bundle_index,
            bundle_offset: 0,
        }
    } else {
        Entry {
            path: decode_utf8(record.path),
            permissions: record.permissions,
            content_checksum: record.checksum,
            filesize: record.file_size,
            bundle_idx: record.bundle_index,
            bundle_offset: record.offset,
        }
    }
}

/// Entry `k` of the listing table. A record is accepted as a listing
/// is: the content of a file must lie in its bundle and have the digest
/// that the record says.
pub open spec fn entry_at(input: Seq<u8>, bundles: Seq<Seq<u8>>, k: nat) -> Result<
    Entry,
    Failure,
> {
    match parsed_record(input, record_start(input, k)) {
        Err(failure) => Err(failure),
        Ok(record) => match record_listing(record, bundles) {
            Err(failure) => Err(failure),
            Ok(_) => Ok(record_entry(record)),
        },
    }
}

/// The first `n` entries in table order, or the first failure among them.
pub open spec fn entries_upto(input: Seq<u8>, bundles: Seq<Seq<u8>>, n: nat) -> Result<
    Seq<Entry>,
    Failure,
>
    decreases n,
{
    if n == 0 {
        Ok(Seq::empty())
    } else {
        match entries_upto(input, bundles, (n - 1) as nat) {
            Err(failure) => Err(failure),
            Ok(earlier) => match entry_at(input, bundles, (n - 1) as nat) {
                Err(failure) => Err(failure),
                Ok(entry) => Ok(earlier.push(entry)),
            },
        }
    }
}

/// An extracted archive as a mathematical value.
pub struct Extraction {
    pub listings: Seq<Entry>,
    pub bundles: Seq<Seq<u8>>,
}

/// What extracting `input` yields: the framing is checked, then every
/// bundle in order, then every record in order with the content that it
/// points at, and the first failure wins. It fails where decoding fails,
/// and with the same failure.
pub open spec fn extracted(input: Seq<u8>) -> Result<Extraction, Failure> {
    match frame_failure(input) {
        Some(failure) => Err(failure),
        None => match bundles_upto(input, bundle_count(input) as nat) {
            Err(failure) => Err(failure),
            Ok(bundles) => match entries_upto(input, bundles, listing_count(input) as nat) {
                Err(failure) => Err(failure),
                Ok(listings) => Ok(Extraction { listings, bundles }),
            },
        },
    }
}

/// The content that an entry points at lies inside its bundle.
pub open spec fn content_in_bundle(entry: Entry, bundles: Seq<Seq<u8>>) -> bool {
    &&& entry.bundle_idx < bundles.len()
    &&& entry.bundle_offset + entry.filesize <= bundles[entry.bundle_idx as int].len()
}

/// The content that an entry points at.
pub open spec fn entry_content(entry: Entry, bundles: Seq<Seq<u8>>) -> Seq<u8> {
    bundles[entry.bundle_idx as int].subrange(
        entry.bundle_offset as int,
        entry.bundle_offset + entry.filesize,
    )
}

/// The step that brings an entry back: a bare directory is created; a
/// file is written once its content was found in its bundle and matches
/// its checksum.
pub open spec fn entry_step(entry: Entry, bundles: Seq<Seq<u8>>) -> Result<Step, Failure> {
    if is_directory(entry.permissions) {
        Ok(Step::CreateDirectory { path: entry.path })
    } else if !content_in_bundle(entry, bundles) {
        Err(Failure::Malformed)
    } else if xxh3_digest(entry_content(entry, bundles)) != entry.content_checksum {
        Err(
            Failure::BadListingChecksum {
                path: entry.path,
                expected: entry.content_checksum,
                actual: xxh3_digest(entry_content(entry, bundles)),
                bundle: entry.bundle_idx,
                offset: entry.bundle_offset,
                size: entry.filesize,
            },
        )
    } else {
        Ok(
            Step::WriteFile {
                path: entry.path,
                permissions: entry.permissions,
                content: entry_content(entry, bundles),
            },
        )
    }
}

/// The steps of the first `n` entries, or the first failure among them.
pub open spec fn entry_steps(listings: Seq<Entry>, bundles: Seq<Seq<u8>>, n: nat) -> Result<
    Seq<Step>,
    Failure,
>
    decreases n,
{
    if n == 0 {
        Ok(Seq::empty())
    } else {
        match entry_steps(listings, bundles, (n - 1) as nat) {
            Err(failure) => Err(failure),
            Ok(earlier) => match entry_step(listings[n - 1], bundles) {
                Err(failure) => Err(failure),
                Ok(step) => Ok(earlier.push(step)),
            },
        }
    }
}

/// Once an entry fails, the failure stands for every longer prefix.
pub proof fn lemma_entry_failure_stands(input: Seq<u8>, bundles: Seq<Seq<u8>>, k: nat, n: nat)
    requires
        k <= n,
        entries_upto(input, bundles, k) is Err,
    ensures
        entries_upto(input, bundles, n) == entries_upto(input, bundles, k),
    decreases n - k,
{
    if k < n {
        lemma_entry_failure_stands(input, bundles, k, (n - 1) as nat);
    }
}

/// Once a step fails, the failure stands for every longer prefix.
pub proof fn lemma_step_failure_stands(
    listings: Seq<Entry>,
    bundles: Seq<Seq<u8>>,
    k: nat,
    n: nat,
)
    requires
        k <= n,
        entry_steps(listings, bundles, k) is Err,
    ensures
        entry_steps(listings, bundles, n) == entry_steps(listings, bundles, k),
    decreases n - k,
{
    if k < n {
        lemma_step_failure_stands(listings, bundles, k, (n - 1) as nat);
    }
}

/// The steps of the first entries do not depend on the entries that
/// follow them.
pub proof fn lemma_steps_of_prefix(
    listings: Seq<Entry>,
    more: Entry,
    bundles: Seq<Seq<u8>>,
    n: nat,
)
    requires
        n <= listings.len(),
    ensures
        entry_steps(listings.push(more), bundles, n) == entry_steps(listings, bundles, n),
    decreases n,
{
    if n > 0 {
        lemma_steps_of_prefix(listings, more, bundles, (n - 1) as nat);
    }
}

/// The first `n` records are read as entries exactly where they decode
/// to listings, and fail with the same failure where they do not; and
/// the entries ask for the steps that the listings ask for.
pub proof fn lemma_entries_agree(input: Seq<u8>, bundles: Seq<Seq<u8>>, n: nat)
    ensures
        match listings_upto(input, bundles, n) {
            Ok(listings) => entries_upto(input, bundles, n) matches Ok(found) && found.len() == n
                && entry_steps(found, bundles, n) == Ok::<Seq<Step>, Failure>(steps_of(listings)),
            Err(failure) => entries_upto(input, bundles, n) == Err::<Seq<Entry>, Failure>(
                failure,
            ),
        },
    decreases n,
{
    if n == 0 {
        assert(steps_of(Seq::<ListingView>::empty()) =~= Seq::<Step>::empty());
    } else {
        lemma_entries_agree(input, bundles, (n - 1) as nat);
        if listings_upto(input, bundles, n) is Ok {
            let earlier = entries_upto(input, bundles, (n - 1) as nat)->Ok_0;
            let record = parsed_record(input, record_start(input, (n - 1) as nat))->Ok_0;
            let listings = listings_upto(input, bundles, (n - 1) as nat)->Ok_0;
            let listing = record_listing(record, bundles)->Ok_0;
            lemma_steps_of_prefix(earlier, record_entry(record), bundles, (n - 1) as nat);
            assert(steps_of(listings.push(listing)) =~= steps_of(listings).push(step_of(listing)));
        }
    }
}

/// Extracting answers as decoding does: it fails where decoding fails,
/// with the same failure; and where an image decodes, bringing back
/// every extracted listing takes the steps that bringing back the
/// decoded listings takes.
pub proof fn lemma_extraction_agrees(input: Seq<u8>)
    ensures
        match decoded(input) {
            Ok(listings) => extracted(input) matches Ok(archive) && entry_steps(
                archive.listings,
                archive.bundles,
                archive.listings.len(),
            ) == Ok::<Seq<Step>, Failure>(steps_of(listings)),
            Err(failure) => extracted(input) == Err::<Extraction, Failure>(failure),
        },
{
    if frame_failure(input) is None && bundles_upto(input, bundle_count(input) as nat) is Ok {
        let bundles = bundles_upto(input, bundle_count(input) as nat)->Ok_0;
        lemma_entries_agree(input, bundles, listing_count(input) as nat);
    }
}

/// Extracted listings or a failure as a mathematical value.
pub open spec fn entries_view(outcome: Result<Vec<ExtractedListing>, DecafError>) -> Result<
    Seq<Entry>,
    Failure,
> {
    match outcome {
        Ok(listings) => Ok(entries(listings@)),
        Err(error) => Err(error@),
    }
}

/// A step or a failure as a mathematical value.
pub open spec fn step_view(outcome: Result<FileAction, DecafError>) -> Result<Step, Failure> {
    match outcome {
        Ok(action) => Ok(action@),
        Err(error) => Err(error@),
    }
}

/// Steps or a failure as a mathematical value.
pub open spec fn steps_view(outcome: Result<Vec<FileAction>, DecafError>) -> Result<
    Seq<Step>,
    Failure,
> {
    match outcome {
        Ok(actions) => Ok(steps(actions@)),
        Err(error) => Err(error@),
    }
}

/// Turns a record into an extracted listing.
pub fn entry_from(record: RawRecord) -> (listing: ExtractedListing)
    ensures
        listing@ == record_entry(record@),
{
    proof {
        encode_utf8_decode_utf8(record.path@);
    }
    if has_directory_bit(record.permissions) {
        ExtractedListing {
            path: record.path,
            permissions: record.permissions,
            content_checksum: 0,
            filesize: 0,
            bundle_idx: record.bundle_index,
            bundle_offset: 0,
        }
    } else {
        ExtractedListing {
            path: record.path,
            permissions: record.permissions,
            content_checksum: record.checksum,
            filesize: record.file_size,
            bundle_idx: record.bundle_index,
            bundle_offset: record.offset,
        }
    }
}

/// Reads `count` listing records from the table of `input` and checks
/// the content that each points at in `bundles`, without copying it.
pub fn read_entries(input: &[u8], bundles: &Vec<Vec<u8>>, count: u64) -> (outcome: Result<
    Vec<ExtractedListing>,
    DecafError,
>)
    ensures
        entries_view(outcome) == entries_upto(input@, rows(bundles@), count as nat),
{
    let ghost data = rows(bundles@);
    let mut listings: Vec<ExtractedListing> = Vec::new();
    assert(entries(listings@) =~= Seq::<Entry>::empty());
    if input.len() < TABLE_START {
        if count == 0 {
            return Ok(listings);
        }
        proof {
            assert(entries_upto(input@, data, 0) is Ok);
            lemma_entry_failure_stands(input@, data, 1, count as nat);
        }
        return Err(DecafError::Malformed);
    }
    let mut at: usize = TABLE_START;
    let mut k: u64 = 0;
    while k < count
        invariant
            data == rows(bundles@),
            k <= count,
            at <= input.len(),
            at == record_start(input@, k as nat),
            entries_upto(input@, data, k as nat) == Ok::<Seq<Entry>, Failure>(
                entries(listings@),
            ),
        decreases count - k,
    {
        let (record, next) = match read_record(input, at) {
            Err(error) => {
                proof {
                    lemma_entry_failure_stands(input@, data, (k + 1) as nat, count as nat);
                }
                return Err(error);
            },
            Ok(read) => read,
        };
        match check_record(&record, bundles) {
            Err(error) => {
                proof {
                    lemma_entry_failure_stands(input@, data, (k + 1) as nat, count as nat);
                }
                return Err(error);
            },
            Ok(_) => {},
        }
        let listing = entry_from(record);
        assert(entries(listings@.push(listing)) =~= entries(listings@).push(listing@));
        listings.push(listing);
        at = next;
        k = k + 1;
    }
    Ok(listings)
}

/// A decoded archive: its listings, and its bundles uncompressed.
#[derive(Debug)]
pub struct ExtractedArchive {
    /// The listings, in the order of the listing table.
    pub listings: Vec<ExtractedListing>,
    /// The bundles, uncompressed and checked.
    pub bundles: Vec<Vec<u8>>,
}

impl View for ExtractedArchive {
    type V = Extraction;

    open spec fn view(&self) -> Extraction {
        Extraction { listings: entries(self.listings@), bundles: rows(self.bundles@) }
    }
}

/// An extracted archive or a failure as a mathematical value.
pub open spec fn extraction_view(outcome: Result<ExtractedArchive, DecafError>) -> Result<
    Extraction,
    Failure,
> {
    match outcome {
        Ok(archive) => Ok(archive@),
        Err(error) => Err(error@),
    }
}

impl ExtractedArchive {
    /// Decodes an archive image, leaving file content in the bundles.
    ///
    /// The framing is checked, then every bundle in order, then every
    /// record in order with the content that it points at; the first
    /// failure is the answer.
    pub fn from_reader(input: &[u8]) -> (outcome: Result<ExtractedArchive, DecafError>)
        ensures
            extraction_view(outcome) == extracted(input@),
    {
        match check_frame(input) {
            Err(error) => {
                return Err(error);
            },
            Ok(_) => {},
        }
        let bundles = match read_bundles(input) {
            Err(error) => {
                return Err(error);
            },
            Ok(bundles) => bundles,
        };
        let count: u64 = read_u64(input, 24);
        match read_entries(input, &bundles, count) {
            Err(error) => Err(error),
            Ok(listings) => Ok(ExtractedArchive { listings, bundles }),
        }
    }

    /// Says how to bring one listing back, cutting a file's content out
    /// of its bundle and checking it.
    pub fn create_file(&self, listing: &ExtractedListing) -> (outcome: Result<
        FileAction,
        DecafError,
    >)
        ensures
            step_view(outcome) == entry_step(listing@, self@.bundles),
    {
        let path = listing.path.clone();
        if has_directory_bit(listing.permissions) {
            return Ok(FileAction::CreateDirectory { path });
        }
        if listing.bundle_idx >= self.bundles.len() as u64 {
            return Err(DecafError::Malformed);
        }
        let bundle = &self.bundles[listing.bundle_idx as usize];
        let available: u64 = bundle.len() as u64;
        if listing.bundle_offset > available || listing.filesize > available
            - listing.bundle_offset {
            return Err(DecafError::Malformed);
        }
        let content = slice_to_vec(
            slice_subrange(
                bundle.as_slice(),
                listing.bundle_offset as usize,
                (listing.bundle_offset + listing.filesize) as usize,
            ),
        );
        let actual: u64 = xxh3(content.as_slice());
        if actual != listing.content_checksum {
            return Err(
                DecafError::BadListingChecksum {
                    path,
                    expected: listing.content_checksum,
                    actual,
                    bundle: listing.bundle_idx,
                    offset: listing.bundle_offset,
                    size: listing.filesize,
                },
            );
        }
        Ok(FileAction::WriteFile { path, permissions: listing.permissions, content })
    }

    /// Says how to bring every listing back, in the order of the
    /// listings; the first listing that fails ends it.
    pub fn create_all_files(&self) -> (outcome: Result<Vec<FileAction>, DecafError>)
        ensures
            steps_view(outcome) == entry_steps(
                self@.listings,
                self@.bundles,
                self.listings@.len(),
            ),
    {
        let ghost all = entries(self.listings@);
        let ghost data = rows(self.bundles@);
        let count: usize = self.listings.len();
        let mut actions: Vec<FileAction> = Vec::new();
        assert(steps(actions@) =~= Seq::<Step>::empty());
        let mut k: usize = 0;
        while k < count
            invariant
                all == entries(self.listings@),
                data == self@.bundles,
                count == self.listings.len(),
                k <= count,
                entry_steps(all, data, k as nat) == Ok::<Seq<Step>, Failure>(steps(actions@)),
            decreases count - k,
        {
            let action = match self.create_file(&self.listings[k]) {
                Err(error) => {
                    proof {
                        lemma_step_failure_stands(all, data, (k + 1) as nat, count as nat);
                    }
                    return Err(error);
                },
                Ok(action) => action,
            };
            assert(steps(actions@.push(action)) =~= steps(actions@).push(action@));
            actions.push(action);
            k = k + 1;
        }
        Ok(actions)
    }
}

/// Decodes an archive image, checking the content of every file where
/// it lies and leaving it in the bundles.
pub fn extract_from_reader(input: &[u8]) -> (outcome: Result<ExtractedArchive, DecafError>)
    ensures
        extraction_view(outcome) == extracted(input@),
{
    ExtractedArchive::from_reader(input)
}

} // verus!
