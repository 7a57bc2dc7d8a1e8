//! Listings whose content is still on disk.
//!
//! A directory can be listed without reading a single file: each listing
//! then holds the size of its file and the place where the content is to
//! be read when the archive is written.

use crate::checksum::{xxh3, xxh3_digest};
use crate::decode::rows;
use crate::error::{DecafError, Failure};
use crate::listing::{sort_listings, sorted, views, Listing, ListingView};
use crate::order::{sorted_from, stable_sort, stably_sorted, Ranked, Ranking};
use crate::relpath::{parts, Part, PathComponent};
use crate::scan::{is_listed, listed_path, relative_text, EntryKind};
use vstd::prelude::*;
use vstd::utf8::*;

verus! {

/// A listing whose content has not been read.
#[derive(Debug, Clone)]
pub struct ArchivableListing {
    /// Path relative to the archive root, with `/` as separator.
    pub relative_path: String,
    /// POSIX mode bits.
    pub permissions: u32,
    /// The size of the file when it was listed; zero for a bare directory.
    pub file_size: u64,
    /// Where the content is to be read; empty for a bare directory.
    pub literal_path: String,
}

/// A listing without content as a mathematical value.
pub struct Pending {
    pub relative_path: Seq<char>,
    pub permissions: u32,
    pub file_size: u64,
    pub literal_path: Seq<char>,
}

impl View for ArchivableListing {
    type V = Pending;

    open spec fn view(&self) -> Pending {
        Pending {
            relative_path: self.relative_path@,
            permissions: self.permissions,
            file_size: self.file_size,
            literal_path: self.literal_path@,
        }
    }
}

/// The views of a vector of listings without content, in order.
pub open spec fn pendings(listings: Seq<ArchivableListing>) -> Seq<Pending> {
    listings.map_values(|listing: ArchivableListing| listing@)
}

/// The order of listings without content: by file size, then by path
/// length in bytes, then by mode bits.
pub open spec fn pending_precedes(a: Pending, b: Pending) -> bool {
    if a.file_size != b.file_size {
        a.file_size < b.file_size
    } else if encode_utf8(a.relative_path).len() != encode_utf8(b.relative_path).len() {
        encode_utf8(a.relative_path).len() < encode_utf8(b.relative_path).len()
    } else {
        a.permissions <= b.permissions
    }
}

impl Ranking for Pending {
    open spec fn before(&self, other: &Self) -> bool {
        pending_precedes(*self, *other)
    }

    proof fn lemma_total(a: &Self, b: &Self) {
    }

    proof fn lemma_transitive(a: &Self, b: &Self, c: &Self) {
    }
}

impl Ranking for ArchivableListing {
    open spec fn before(&self, other: &Self) -> bool {
        pending_precedes(self@, other@)
    }

    proof fn lemma_total(a: &Self, b: &Self) {
    }

    proof fn lemma_transitive(a: &Self, b: &Self, c: &Self) {
    }
}

impl Ranked for ArchivableListing {
    fn stands_before(&self, other: &Self) -> (b: bool) {
        let own_path: usize = self.relative_path.as_str().as_bytes().len();
        let other_path: usize = other.relative_path.as_str().as_bytes().len();
        if self.file_size != other.file_size {
            self.file_size < other.file_size
        } else if own_path != other_path {
            own_path < other_path
        } else {
            self.permissions <= other.permissions
        }
    }
}

/// The listing that a listing without content becomes once its content
/// was read: one without a place to read from has no content and
/// checksum zero, whatever was read; any other carries what was read and
/// its digest.
pub open spec fn loaded(listing: Pending, content: Seq<u8>) -> ListingView {
    if listing.literal_path.len() == 0 {
        ListingView {
            path: listing.relative_path,
            permissions: listing.permissions,
            content_checksum: 0,
            content: Seq::empty(),
        }
    } else {
        ListingView {
            path: listing.relative_path,
            permissions: listing.permissions,
            content_checksum: xxh3_digest(content),
            content,
        }
    }
}

impl ArchivableListing {
    /// Whether there is content to read for this listing.
    pub fn has_content(&self) -> (b: bool)
        ensures
            b == (self@.literal_path.len() > 0),
    {
        !self.literal_path.as_str().is_empty()
    }

    /// The listing with its content.
    pub fn load(&self, content: Vec<u8>) -> (listing: Listing)
        ensures
            listing@ == loaded(self@, content@),
    {
        let path = self.relative_path.clone();
        if self.has_content() {
            let content_checksum: u64 = xxh3(content.as_slice());
            Listing { path, permissions: self.permissions, content_checksum, content }
        } else {
            let listing = Listing {
                path,
                permissions: self.permissions,
                content_checksum: 0,
                content: Vec::new(),
            };
            listing
        }
    }
}

/// The listings of a directory, sorted, with their content still on disk.
#[derive(Debug)]
pub struct ArchivableArchive {
    /// The listings, in the order in which they are to be encoded.
    pub listings: Vec<ArchivableListing>,
}

/// The listings that listings without content become with `contents`,
/// one each and in their order.
pub open spec fn loaded_all(listings: Seq<Pending>, contents: Seq<Seq<u8>>) -> Seq<ListingView> {
    Seq::new(listings.len(), |i: int| loaded(listings[i], contents[i]))
}

impl ArchivableArchive {
    /// The listings with their contents, in storage order: each listing
    /// is given the content at its position, and the listings are sorted
    /// again, since content has a say in the order. There is no answer
    /// if there is not one content for each listing.
    pub fn load(&self, contents: Vec<Vec<u8>>) -> (outcome: Option<Vec<Listing>>)
        ensures
            match outcome {
                None => contents@.len() != self.listings@.len(),
                Some(listings) => {
                    &&& contents@.len() == self.listings@.len()
                    &&& stably_sorted(
                        loaded_all(pendings(self.listings@), rows(contents@)),
                        views(listings@),
                    )
                    &&& sorted(views(listings@))
                },
            },
    {
        if contents.len() != self.listings.len() {
            return None;
        }
        let ghost all = rows(contents@);
        let ghost waiting = pendings(self.listings@);
        let mut unsorted: Vec<Listing> = Vec::new();
        let mut k: usize = 0;
        for content in it: contents.into_iter()
            invariant
                all == rows(it.seq()),
                waiting == pendings(self.listings@),
                it.seq().len() == self.listings@.len(),
                k == it.index(),
                unsorted@.len() == k,
                forall|j: int|
                    0 <= j < k ==> (#[trigger] unsorted@[j])@ == loaded(waiting[j], all[j]),
        {
            assert(all[k as int] == content@);
            assert(waiting[k as int] == self.listings@[k as int]@);
            let listing = self.listings[k].load(content);
            unsorted.push(listing);
            assert(k < self.listings.len());
            k = k + 1;
        }
        assert(views(unsorted@) =~= loaded_all(waiting, all));
        Some(sort_listings(unsorted))
    }
}

/// An entry that a walk found below the root, not yet read.
#[derive(Debug, Clone)]
pub struct FoundEntry {
    /// The components of the entry's path, as the walk reached it.
    pub path: Vec<PathComponent>,
    /// What the entry is.
    pub kind: EntryKind,
    /// The entry's mode bits.
    pub permissions: u32,
    /// The size of a regular file; unused for the other kinds.
    pub file_size: u64,
    /// Where the content of a regular file is to be read; unused for the
    /// other kinds.
    pub literal_path: String,
}

/// A found entry as a mathematical value.
pub struct Found {
    pub path: Seq<Part>,
    pub kind: EntryKind,
    pub permissions: u32,
    pub file_size: u64,
    pub literal_path: Seq<char>,
}

impl View for FoundEntry {
    type V = Found;

    open spec fn view(&self) -> Found {
        Found {
            path: parts(self.path@),
            kind: self.kind,
            permissions: self.permissions,
            file_size: self.file_size,
            literal_path: self.literal_path@,
        }
    }
}

/// The views of a vector of found entries, in order.
pub open spec fn found(entries: Seq<FoundEntry>) -> Seq<Found> {
    entries.map_values(|entry: FoundEntry| entry@)
}

/// The listing of a listed entry: an empty directory has size zero and
/// no place to read from; a file has its size and its place.
pub open spec fn pending_of(path: Seq<char>, entry: Found) -> Pending {
    if entry.kind is File {
        Pending {
            relative_path: path,
            permissions: entry.permissions,
            file_size: entry.file_size,
            literal_path: entry.literal_path,
        }
    } else {
        Pending {
            relative_path: path,
            permissions: entry.permissions,
            file_size: 0,
            literal_path: Seq::empty(),
        }
    }
}

/// The listings of the first `n` entries, in the order of the entries;
/// or the first failure among them.
pub open spec fn collected(root: Seq<Part>, entries: Seq<Found>, n: nat) -> Result<
    Seq<Pending>,
    Failure,
>
    decreases n,
{
    if n == 0 {
        Ok(Seq::empty())
    } else {
        match collected(root, entries, (n - 1) as nat) {
            Err(failure) => Err(failure),
            Ok(earlier) => if !is_listed(entries[n - 1].kind) {
                Ok(earlier)
            } else {
                match listed_path(root, entries[n - 1].path) {
                    Err(failure) => Err(failure),
                    Ok(path) => Ok(earlier.push(pending_of(path, entries[n - 1]))),
                }
            },
        }
    }
}

/// Once an entry fails, the failure stands for every longer prefix.
pub proof fn lemma_collecting_failure_stands(root: Seq<Part>, entries: Seq<Found>, k: nat, n: nat)
    requires
        k <= n,
        collected(root, entries, k) is Err,
    ensures
        collected(root, entries, n) == collected(root, entries, k),
    decreases n - k,
{
    if k < n {
        lemma_collecting_failure_stands(root, entries, k, (n - 1) as nat);
    }
}

/// No symbolic link and no directory with entries becomes a listing:
/// each collected listing is the listing of an entry that is listed.
pub proof fn lemma_only_listed_collected(
    root: Seq<Part>,
    entries: Seq<Found>,
    n: nat,
    listing: Pending,
)
    requires
        n <= entries.len(),
        collected(root, entries, n) matches Ok(listings) && listings.contains(listing),
    ensures
        exists|i: int|
            0 <= i < n && is_listed(#[trigger] entries[i].kind) && listed_path(
                root,
                entries[i].path,
            ) is Ok && listing == pending_of(
                listed_path(root, entries[i].path)->Ok_0,
                entries[i],
            ),
    decreases n,
{
    let listings = collected(root, entries, n)->Ok_0;
    let at = choose|at: int| 0 <= at < listings.len() && listings[at] == listing;
    if !is_listed(entries[n - 1].kind) || at < listings.len() - 1 {
        lemma_only_listed_collected(root, entries, (n - 1) as nat, listing);
    }
}

/// A symbolic link leaves no listing, and neither does a directory with
/// entries: each listing that the builder gives is the listing of an
/// empty directory or of a regular file among the entries.
pub proof fn lemma_symlinks_elided_unread(
    root: Seq<Part>,
    entries: Seq<Found>,
    output: Seq<Pending>,
    listing: Pending,
)
    requires
        collected(root, entries, entries.len()) matches Ok(unsorted) && stably_sorted(
            unsorted,
            output,
        ),
        output.contains(listing),
    ensures
        exists|i: int|
            0 <= i < entries.len() && is_listed(#[trigger] entries[i].kind) && listed_path(
                root,
                entries[i].path,
            ) is Ok && listing == pending_of(
                listed_path(root, entries[i].path)->Ok_0,
                entries[i],
            ),
{
    let unsorted = collected(root, entries, entries.len())->Ok_0;
    let from = choose|from: Seq<int>| sorted_from(unsorted, output, from);
    let at = choose|at: int| 0 <= at < output.len() && output[at] == listing;
    assert(0 <= from[at] < unsorted.len() && output[at] == unsorted[from[at]]);
    lemma_only_listed_collected(root, entries, entries.len(), listing);
}

/// Where no empty directory and no regular file among the entries has a
/// path of some kind, no listing has: so a symbolic link leaves no
/// listing at its path, and none below it, wherever it points.
pub proof fn lemma_no_unread_listing_at(
    root: Seq<Part>,
    entries: Seq<Found>,
    output: Seq<Pending>,
    unwanted: spec_fn(Seq<char>) -> bool,
)
    requires
        collected(root, entries, entries.len()) matches Ok(unsorted) && stably_sorted(
            unsorted,
            output,
        ),
        forall|i: int|
            0 <= i < entries.len() && is_listed(#[trigger] entries[i].kind) && listed_path(
                root,
                entries[i].path,
            ) is Ok ==> !unwanted(listed_path(root, entries[i].path)->Ok_0),
    ensures
        forall|k: int| 0 <= k < output.len() ==> !unwanted(#[trigger] output[k].relative_path),
{
    assert forall|k: int| 0 <= k < output.len() implies !unwanted(
        #[trigger] output[k].relative_path,
    ) by {
        assert(output.contains(output[k]));
        lemma_symlinks_elided_unread(root, entries, output, output[k]);
    }
}

/// Collects the listings of found entries, in the order of the entries.
fn collect_listings(root: &Vec<PathComponent>, entries: Vec<FoundEntry>) -> (outcome: Result<
    Vec<ArchivableListing>,
    DecafError,
>)
    ensures
        match outcome {
            Ok(listings) => collected(parts(root@), found(entries@), entries@.len()) == Ok::<
                Seq<Pending>,
                Failure,
            >(pendings(listings@)),
            Err(error) => collected(parts(root@), found(entries@), entries@.len()) == Err::<
                Seq<Pending>,
                Failure,
            >(error@),
        },
{
    let ghost all = found(entries@);
    let ghost base = parts(root@);
    let ghost total = entries@.len();
    let mut listings: Vec<ArchivableListing> = Vec::new();
    assert(pendings(listings@) =~= Seq::<Pending>::empty());
    for entry in it: entries.into_iter()
        invariant
            all == found(it.seq()),
            base == parts(root@),
            total == it.seq().len(),
            collected(base, all, it.index() as nat) == Ok::<Seq<Pending>, Failure>(
                pendings(listings@),
            ),
    {
        let ghost k = it.index() as nat;
        match entry.kind {
            EntryKind::Symlink | EntryKind::Directory => {},
            EntryKind::EmptyDirectory => {
                let relative_path = match relative_text(root, &entry.path) {
                    Err(error) => {
                        proof {
                            lemma_collecting_failure_stands(base, all, k + 1, total);
                        }
                        return Err(error);
                    },
                    Ok(path) => path,
                };
                let listing = ArchivableListing {
                    relative_path,
                    permissions: entry.permissions,
                    file_size: 0,
                    literal_path: String::new(),
                };
                assert(pendings(listings@.push(listing)) =~= pendings(listings@).push(listing@));
                listings.push(listing);
            },
            EntryKind::File => {
                let relative_path = match relative_text(root, &entry.path) {
                    Err(error) => {
                        proof {
                            lemma_collecting_failure_stands(base, all, k + 1, total);
                        }
                        return Err(error);
                    },
                    Ok(path) => path,
                };
                let listing = ArchivableListing {
                    relative_path,
                    permissions: entry.permissions,
                    file_size: entry.file_size,
                    literal_path: entry.literal_path,
                };
                assert(pendings(listings@.push(listing)) =~= pendings(listings@).push(listing@));
                listings.push(listing);
            },
        }
    }
    Ok(listings)
}

/// Lists a directory without reading its files, from the entries that a
/// walk found below `root`: an empty directory and a regular file each
/// give one listing, with its path relative to `root`, and the listings
/// are sorted by size, path length and mode bits.
pub fn create_archive_from_directory(
    root: &Vec<PathComponent>,
    entries: Vec<FoundEntry>,
) -> (outcome: Result<ArchivableArchive, DecafError>)
    ensures
        match outcome {
            Ok(archive) => collected(parts(root@), found(entries@), entries@.len()) matches Ok(
                unsorted,
            ) && stably_sorted(unsorted, pendings(archive.listings@)),
            Err(error) => collected(parts(root@), found(entries@), entries@.len()) == Err::<
                Seq<Pending>,
                Failure,
            >(error@),
        },
{
    let unsorted = match collect_listings(root, entries) {
        Err(error) => {
            return Err(error);
        },
        Ok(unsorted) => unsorted,
    };
    let listings = stable_sort(unsorted);
    proof {
        let from = choose|from: Seq<int>| crate::order::sorted_from(unsorted@, listings@, from);
        let input = pendings(unsorted@);
        let output = pendings(listings@);
        assert(crate::order::sorted_from(input, output, from));
    }
    Ok(ArchivableArchive { listings })
}

} // verus!
