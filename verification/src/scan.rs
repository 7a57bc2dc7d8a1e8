//! Building listings from what a walk through a directory found.
//!
//! The walk itself happens outside: it reports every entry below the
//! root with its path, its kind, its mode bits and, for a regular file,
//! its content. What becomes a listing is decided here.

use crate::checksum::xxh3_digest;
use crate::error::{DecafError, Failure};
use crate::listing::{
    all_consistent, is_directory, sort_listings, sorted, views, Listing, ListingView,
};
use crate::order::{sorted_from, stably_sorted};
use crate::relpath::{
    join_path, parts, path_text, relative_from, relative_path_from, Part, PathComponent,
};
use crate::text::utf8_string;
use vstd::prelude::*;
use vstd::utf8::*;

verus! {

/// What kind of entry a walk found.
#[derive(Debug, Clone, Copy, PartialEq, Eq)]
pub enum EntryKind {
    /// A symbolic link, whatever it points at.
    Symlink,
    /// A directory without entries.
    EmptyDirectory,
    /// A directory with entries.
    Directory,
    /// A regular file.
    File,
}

impl EntryKind {
    /// The kind of an entry. A symbolic link is a link whatever it
    /// points at; a directory is empty if it has no entry.
    pub fn of(is_symlink: bool, is_directory: bool, children: usize) -> (kind: EntryKind)
        ensures
            kind == if is_symlink {
                EntryKind::Symlink
            } else if is_directory && children == 0 {
                EntryKind::EmptyDirectory
            } else if is_directory {
                EntryKind::Directory
            } else {
                EntryKind::File
            },
    {
        if is_symlink {
            EntryKind::Symlink
        } else if is_directory {
            if children == 0 {
                EntryKind::EmptyDirectory
            } else {
                EntryKind::Directory
            }
        } else {
            EntryKind::File
        }
    }
}

/// An entry that a walk found below the root.
#[derive(Debug, Clone)]
pub struct ScannedEntry {
    /// The components of the entry's path, as the walk reached it.
    pub path: Vec<PathComponent>,
    /// What the entry is.
    pub kind: EntryKind,
    /// The entry's mode bits.
    pub permissions: u32,
    /// The content of a regular file; unused for the other kinds.
    pub content: Vec<u8>,
}

/// A scanned entry as a mathematical value.
pub struct Scanned {
    pub path: Seq<Part>,
    pub kind: EntryKind,
    pub permissions: u32,
    pub content: Seq<u8>,
}

impl View for ScannedEntry {
    type V = Scanned;

    open spec fn view(&self) -> Scanned {
        Scanned {
            path: parts(self.path@),
            kind: self.kind,
            permissions: self.permissions,
            content: self.content@,
        }
    }
}

/// The views of a vector of scanned entries, in order.
pub open spec fn scanned(entries: Seq<ScannedEntry>) -> Seq<Scanned> {
    entries.map_values(|entry: ScannedEntry| entry@)
}

/// Whether an entry becomes a listing: an empty directory and a regular
/// file do; a symbolic link does not, and neither does a directory with
/// entries, which its entries imply.
pub open spec fn is_listed(kind: EntryKind) -> bool {
    kind is EmptyDirectory || kind is File
}

/// The path of an entry relative to the root, as text; or `InvalidPath`
/// if there is no relative path or if it is not valid UTF-8.
pub open spec fn listed_path(root: Seq<Part>, path: Seq<Part>) -> Result<Seq<char>, Failure> {
    match relative_from(path, root) {
        None => Err(Failure::InvalidPath),
        Some(relative) => {
            let text = path_text(relative, relative.len());
            if valid_utf8(text) {
                Ok(decode_utf8(text))
            } else {
                Err(Failure::InvalidPath)
            }
        },
    }
}

/// The listing of a listed entry: an empty directory has no content and
/// checksum zero; a file has its content and the content's digest.
pub open spec fn listing_of(path: Seq<char>, entry: Scanned) -> ListingView {
    if entry.kind is File {
        ListingView {
            path,
            permissions: entry.permissions,
            content_checksum: xxh3_digest(entry.content),
            content: entry.content,
        }
    } else {
        ListingView {
            path,
            permissions: entry.permissions,
            content_checksum: 0,
            content: Seq::empty(),
        }
    }
}

/// The listings of the first `n` entries, in the order of the entries;
/// or the first failure among them.
pub open spec fn gathered(root: Seq<Part>, entries: Seq<Scanned>, n: nat) -> Result<
    Seq<ListingView>,
    Failure,
>
    decreases n,
{
    if n == 0 {
        Ok(Seq::empty())
    } else {
        match gathered(root, entries, (n - 1) as nat) {
            Err(failure) => Err(failure),
            Ok(earlier) => if !is_listed(entries[n - 1].kind) {
                Ok(earlier)
            } else {
                match listed_path(root, entries[n - 1].path) {
                    Err(failure) => Err(failure),
                    Ok(path) => Ok(earlier.push(listing_of(path, entries[n - 1]))),
                }
            },
        }
    }
}

/// Once an entry fails, the failure stands for every longer prefix.
pub proof fn lemma_gathering_failure_stands(
    root: Seq<Part>,
    entries: Seq<Scanned>,
    k: nat,
    n: nat,
)
    requires
        k <= n,
        gathered(root, entries, k) is Err,
    ensures
        gathered(root, entries, n) == gathered(root, entries, k),
    decreases n - k,
{
    if k < n {
        lemma_gathering_failure_stands(root, entries, k, (n - 1) as nat);
    }
}

/// No symbolic link and no directory with entries becomes a listing:
/// each gathered listing is the listing of an entry that is listed.
pub proof fn lemma_only_listed_entries(
    root: Seq<Part>,
    entries: Seq<Scanned>,
    n: nat,
    listing: ListingView,
)
    requires
        n <= entries.len(),
        gathered(root, entries, n) matches Ok(listings) && listings.contains(listing),
    ensures
        exists|i: int|
            0 <= i < n && is_listed(#[trigger] entries[i].kind) && listed_path(
                root,
                entries[i].path,
            ) is Ok && listing == listing_of(
                listed_path(root, entries[i].path)->Ok_0,
                entries[i],
            ),
    decreases n,
{
    let listings = gathered(root, entries, n)->Ok_0;
    let at = choose|at: int| 0 <= at < listings.len() && listings[at] == listing;
    if !is_listed(entries[n - 1].kind) || at < listings.len() - 1 {
        lemma_only_listed_entries(root, entries, (n - 1) as nat, listing);
    }
}

/// The mode bits of every entry say what the entry is: those of an empty
/// directory carry the directory bit, those of a file do not.
pub open spec fn modes_agree(entries: Seq<Scanned>) -> bool {
    forall|i: int|
        0 <= i < entries.len() ==> {
            &&& (#[trigger] entries[i]).kind is File ==> !is_directory(entries[i].permissions)
            &&& entries[i].kind is EmptyDirectory ==> is_directory(entries[i].permissions)
        }
}

/// What is gathered from entries whose mode bits agree with their kinds
/// is consistent.
pub proof fn lemma_gathered_consistent(root: Seq<Part>, entries: Seq<Scanned>, n: nat)
    requires
        n <= entries.len(),
        modes_agree(entries),
    ensures
        gathered(root, entries, n) matches Ok(listings) ==> all_consistent(listings),
    decreases n,
{
    if n > 0 {
        lemma_gathered_consistent(root, entries, (n - 1) as nat);
    }
}

/// Sorting keeps listings consistent.
pub proof fn lemma_sorting_keeps_consistency(input: Seq<ListingView>, output: Seq<ListingView>)
    requires
        stably_sorted(input, output),
        all_consistent(input),
    ensures
        all_consistent(output),
{
    let from = choose|from: Seq<int>| sorted_from(input, output, from);
    assert forall|i: int| 0 <= i < output.len() implies (#[trigger] output[i]).consistent() by {
        assert(0 <= from[i] < input.len() && output[i] == input[from[i]]);
    }
}

/// A symbolic link leaves no listing, and neither does a directory with
/// entries: each listing that the builder gives is the listing of an
/// empty directory or of a regular file among the entries.
pub proof fn lemma_symlinks_elided(
    root: Seq<Part>,
    entries: Seq<Scanned>,
    output: Seq<ListingView>,
    listing: ListingView,
)
    requires
        gathered(root, entries, entries.len()) matches Ok(found) && stably_sorted(found, output),
        output.contains(listing),
    ensures
        exists|i: int|
            0 <= i < entries.len() && is_listed(#[trigger] entries[i].kind) && listed_path(
                root,
                entries[i].path,
            ) is Ok && listing == listing_of(
                listed_path(root, entries[i].path)->Ok_0,
                entries[i],
            ),
{
    let found = gathered(root, entries, entries.len())->Ok_0;
    let from = choose|from: Seq<int>| sorted_from(found, output, from);
    let at = choose|at: int| 0 <= at < output.len() && output[at] == listing;
    assert(0 <= from[at] < found.len() && output[at] == found[from[at]]);
    lemma_only_listed_entries(root, entries, entries.len(), listing);
}

/// Where no empty directory and no regular file among the entries has a
/// path of some kind, no listing has: so a symbolic link leaves no
/// listing at its path, and none below it.
pub proof fn lemma_no_listing_at(
    root: Seq<Part>,
    entries: Seq<Scanned>,
    output: Seq<ListingView>,
    unwanted: spec_fn(Seq<char>) -> bool,
)
    requires
        gathered(root, entries, entries.len()) matches Ok(found) && stably_sorted(found, output),
        forall|i: int|
            0 <= i < entries.len() && is_listed(#[trigger] entries[i].kind) && listed_path(
                root,
                entries[i].path,
            ) is Ok ==> !unwanted(listed_path(root, entries[i].path)->Ok_0),
    ensures
        forall|k: int| 0 <= k < output.len() ==> !unwanted(#[trigger] output[k].path),
{
    assert forall|k: int| 0 <= k < output.len() implies !unwanted(#[trigger] output[k].path) by {
        assert(output.contains(output[k]));
        lemma_symlinks_elided(root, entries, output, output[k]);
    }
}

/// Listings or a failure as a mathematical value.
pub open spec fn listings_view(outcome: Result<Vec<Listing>, DecafError>) -> Result<
    Seq<ListingView>,
    Failure,
> {
    match outcome {
        Ok(listings) => Ok(views(listings@)),
        Err(error) => Err(error@),
    }
}

/// Turns the path of an entry into the path of its listing.
pub fn relative_text(root: &Vec<PathComponent>, path: &Vec<PathComponent>) -> (outcome: Result<
    String,
    DecafError,
>)
    ensures
        match outcome {
            Ok(text) => listed_path(parts(root@), parts(path@)) == Ok::<Seq<char>, Failure>(text@),
            Err(error) => listed_path(parts(root@), parts(path@)) == Err::<Seq<char>, Failure>(
                error@,
            ),
        },
{
    let relative = match relative_path_from(path, root) {
        None => {
            return Err(DecafError::InvalidPath);
        },
        Some(relative) => relative,
    };
    let bytes = join_path(&relative);
    match utf8_string(bytes.as_slice()) {
        None => Err(DecafError::InvalidPath),
        Some(text) => {
            proof {
                encode_utf8_decode_utf8(text@);
            }
            Ok(text)
        },
    }
}

/// Gathers the listings of scanned entries, in the order of the entries.
pub fn gather_listings(root: &Vec<PathComponent>, entries: Vec<ScannedEntry>) -> (outcome: Result<
    Vec<Listing>,
    DecafError,
>)
    ensures
        listings_view(outcome) == gathered(parts(root@), scanned(entries@), entries@.len()),
{
    let ghost all = scanned(entries@);
    let ghost base = parts(root@);
    let ghost total = entries@.len();
    let mut listings: Vec<Listing> = Vec::new();
    assert(views(listings@) =~= Seq::<ListingView>::empty());
    for entry in it: entries.into_iter()
        invariant
            all == scanned(it.seq()),
            base == parts(root@),
            total == it.seq().len(),
            gathered(base, all, it.index() as nat) == Ok::<Seq<ListingView>, Failure>(
                views(listings@),
            ),
    {
        let ghost k = it.index() as nat;
        match entry.kind {
            EntryKind::Symlink | EntryKind::Directory => {},
            EntryKind::EmptyDirectory => {
                let path = match relative_text(root, &entry.path) {
                    Err(error) => {
                        proof {
                            lemma_gathering_failure_stands(base, all, k + 1, total);
                        }
                        return Err(error);
                    },
                    Ok(path) => path,
                };
                let listing = Listing::directory(path, entry.permissions);
                assert(views(listings@.push(listing)) =~= views(listings@).push(listing@));
                listings.push(listing);
            },
            EntryKind::File => {
                let path = match relative_text(root, &entry.path) {
                    Err(error) => {
                        proof {
                            lemma_gathering_failure_stands(base, all, k + 1, total);
                        }
                        return Err(error);
                    },
                    Ok(path) => path,
                };
                let listing = Listing::file(path, entry.permissions, entry.content);
                assert(views(listings@.push(listing)) =~= views(listings@).push(listing@));
                listings.push(listing);
            },
        }
    }
    Ok(listings)
}

/// Builds the listings of a directory from the entries that a walk found
/// below `root`: an empty directory and a regular file each give one
/// listing, with its path relative to `root`, and the listings are
/// sorted into storage order.
pub fn create_listings_from_directory(
    root: &Vec<PathComponent>,
    entries: Vec<ScannedEntry>,
) -> (outcome: Result<Vec<Listing>, DecafError>)
    ensures
        match outcome {
            Ok(listings) => {
                &&& gathered(parts(root@), scanned(entries@), entries@.len()) matches Ok(found)
                    && stably_sorted(found, views(listings@))
                &&& sorted(views(listings@))
                &&& modes_agree(scanned(entries@)) ==> all_consistent(views(listings@))
            },
            Err(error) => gathered(parts(root@), scanned(entries@), entries@.len()) == Err::<
                Seq<ListingView>,
                Failure,
            >(error@),
        },
{
    match gather_listings(root, entries) {
        Err(error) => Err(error),
        Ok(found) => {
            let ghost unsorted = views(found@);
            let listings = sort_listings(found);
            proof {
                if modes_agree(scanned(entries@)) {
                    lemma_gathered_consistent(
                        parts(root@),
                        scanned(entries@),
                        entries@.len() as nat,
                    );
                    lemma_sorting_keeps_consistency(unsorted, views(listings@));
                }
            }
            Ok(listings)
        },
    }
}

} // verus!
