//! Listings, the unit of archiving, and the order in which they are stored.

use crate::checksum::{xxh3, xxh3_digest};
use crate::order::{sorted_from, stable_sort, stably_sorted, Ranked, Ranking};
use crate::relpath::{contained, path_is_contained};
use crate::wire::same_bytes;
use vstd::prelude::*;
use vstd::utf8::*;

verus! {

/// The mode bit that marks a listing as a bare directory.
pub const DIRECTORY_BIT: u32 = 0o040000;

/// Whether mode bits carry the directory bit.
pub open spec fn is_directory(permissions: u32) -> bool {
    permissions & DIRECTORY_BIT == DIRECTORY_BIT
}

/// Whether mode bits carry the directory bit.
pub fn has_directory_bit(permissions: u32) -> (b: bool)
    ensures
        b == is_directory(permissions),
{
    permissions & DIRECTORY_BIT == DIRECTORY_BIT
}

/// One archived file or bare directory.
#[derive(Debug, Clone)]
pub struct Listing {
    /// Path relative to the archive root, with `/` as separator.
    pub path: String,
    /// POSIX mode bits.
    pub permissions: u32,
    /// XXH3 digest of `content`; zero for a bare directory.
    pub content_checksum: u64,
    /// The file's bytes; empty for a bare directory.
    pub content: Vec<u8>,
}

/// A listing as a mathematical value.
pub struct ListingView {
    pub path: Seq<char>,
    pub permissions: u32,
    pub content_checksum: u64,
    pub content: Seq<u8>,
}

impl View for Listing {
    type V = ListingView;

    open spec fn view(&self) -> ListingView {
        ListingView {
            path: self.path@,
            permissions: self.permissions,
            content_checksum: self.content_checksum,
            content: self.content@,
        }
    }
}

impl ListingView {
    /// The path as it is stored: its UTF-8 bytes.
    pub open spec fn path_bytes(self) -> Seq<u8> {
        encode_utf8(self.path)
    }

    /// The listing is as a listing should be: its path is contained, and
    /// its content and checksum are consistent.
    pub open spec fn well_formed(self) -> bool {
        contained(self.path_bytes()) && self.consistent()
    }

    /// A bare directory has no content and checksum zero; a file carries
    /// the digest of its content.
    pub open spec fn consistent(self) -> bool {
        if is_directory(self.permissions) {
            self.content.len() == 0 && self.content_checksum == 0
        } else {
            self.content_checksum == xxh3_digest(self.content)
        }
    }
}

/// The views of a vector of listings, in order.
pub open spec fn views(listings: Seq<Listing>) -> Seq<ListingView> {
    listings.map_values(|l: Listing| l@)
}

/// Every listing of the sequence is consistent.
pub open spec fn all_consistent(listings: Seq<ListingView>) -> bool {
    forall|i: int| 0 <= i < listings.len() ==> (#[trigger] listings[i]).consistent()
}

/// Lexicographic order on byte strings: `a` comes no later than `b`.
pub open spec fn bytes_le(a: Seq<u8>, b: Seq<u8>) -> bool {
    ||| (a.len() <= b.len() && forall|j: int| 0 <= j < a.len() ==> a[j] == b[j])
    ||| exists|i: int|
        0 <= i < a.len() && i < b.len() && a[i] < b[i] && forall|j: int|
            0 <= j < i ==> a[j] == b[j]
}

/// The storage order: by content length, then by path length in bytes,
/// then by mode bits, then by content. `precedes(a, b)` says that `a` may
/// stand before `b`.
pub open spec fn precedes(a: ListingView, b: ListingView) -> bool {
    if a.content.len() != b.content.len() {
        a.content.len() < b.content.len()
    } else if a.path_bytes().len() != b.path_bytes().len() {
        a.path_bytes().len() < b.path_bytes().len()
    } else if a.permissions != b.permissions {
        a.permissions < b.permissions
    } else {
        bytes_le(a.content, b.content)
    }
}

/// A sequence of listings is in storage order.
pub open spec fn sorted(listings: Seq<ListingView>) -> bool {
    forall|i: int, j: int|
        0 <= i <= j < listings.len() ==> precedes(#[trigger] listings[i], #[trigger] listings[j])
}

/// Where two byte strings of one length first differ.
proof fn lemma_first_difference(a: Seq<u8>, b: Seq<u8>, from: int) -> (at: int)
    requires
        a.len() == b.len(),
        0 <= from <= a.len(),
        forall|j: int| 0 <= j < from ==> a[j] == b[j],
        exists|k: int| 0 <= k < a.len() && a[k] != b[k],
    ensures
        0 <= at < a.len(),
        a[at] != b[at],
        forall|j: int| 0 <= j < at ==> a[j] == b[j],
    decreases a.len() - from,
{
    if from < a.len() && a[from] != b[from] {
        from
    } else {
        lemma_first_difference(a, b, from + 1)
    }
}

/// Of two byte strings of one length, one comes no later than the other.
pub proof fn lemma_bytes_le_total(a: Seq<u8>, b: Seq<u8>)
    requires
        a.len() == b.len(),
    ensures
        bytes_le(a, b) || bytes_le(b, a),
{
    if exists|k: int| 0 <= k < a.len() && a[k] != b[k] {
        lemma_first_difference(a, b, 0);
    }
}

/// The lexicographic order is transitive.
pub proof fn lemma_bytes_le_transitive(a: Seq<u8>, b: Seq<u8>, c: Seq<u8>)
    requires
        a.len() == b.len(),
        b.len() == c.len(),
        bytes_le(a, b),
        bytes_le(b, c),
    ensures
        bytes_le(a, c),
{
}

/// Two byte strings of one length, each no later than the other, are
/// the same.
pub proof fn lemma_bytes_le_antisymmetric(a: Seq<u8>, b: Seq<u8>)
    requires
        a.len() == b.len(),
        bytes_le(a, b),
        bytes_le(b, a),
    ensures
        a == b,
{
    assert(a =~= b);
}

/// Two listings have the same rank if each may stand before the other.
pub open spec fn same_rank(a: ListingView, b: ListingView) -> bool {
    precedes(a, b) && precedes(b, a)
}

/// Listings of the same rank have the same content, paths of the same
/// length and the same mode bits, and the other way round.
pub proof fn lemma_same_rank(a: ListingView, b: ListingView)
    ensures
        same_rank(a, b) <==> (a.content == b.content && a.path_bytes().len()
            == b.path_bytes().len() && a.permissions == b.permissions),
{
    if same_rank(a, b) {
        lemma_bytes_le_antisymmetric(a.content, b.content);
    }
}

/// Of two listings, one may stand before the other.
pub proof fn lemma_precedes_total(a: ListingView, b: ListingView)
    ensures
        precedes(a, b) || precedes(b, a),
{
    if a.content.len() == b.content.len() {
        lemma_bytes_le_total(a.content, b.content);
    }
}

/// The storage order is transitive.
pub proof fn lemma_precedes_transitive(a: ListingView, b: ListingView, c: ListingView)
    requires
        precedes(a, b),
        precedes(b, c),
    ensures
        precedes(a, c),
{
    if a.content.len() == b.content.len() && b.content.len() == c.content.len()
        && a.path_bytes().len() == b.path_bytes().len() && b.path_bytes().len()
        == c.path_bytes().len() && a.permissions == b.permissions && b.permissions
        == c.permissions {
        lemma_bytes_le_transitive(a.content, b.content, c.content);
    }
}

/// Decides the lexicographic order of two byte strings of one length.
fn content_le(a: &Vec<u8>, b: &Vec<u8>) -> (le: bool)
    requires
        a.len() == b.len(),
    ensures
        le == bytes_le(a@, b@),
{
    let n: usize = a.len();
    let mut i: usize = 0;
    while i < n
        invariant
            i <= n,
            n == a.len(),
            n == b.len(),
            forall|j: int| 0 <= j < i ==> a@[j] == b@[j],
        decreases n - i,
    {
        if a[i] != b[i] {
            let below: bool = a[i] < b[i];
            return below;
        }
        i = i + 1;
    }
    true
}

impl Listing {
    /// The listing of a regular file: it carries the digest of `content`.
    pub fn file(path: String, permissions: u32, content: Vec<u8>) -> (listing: Listing)
        ensures
            listing@ == (ListingView {
                path: path@,
                permissions,
                content_checksum: xxh3_digest(content@),
                content: content@,
            }),
            !is_directory(permissions) ==> listing@.consistent(),
    {
        let content_checksum: u64 = xxh3(content.as_slice());
        Listing { path, permissions, content_checksum, content }
    }

    /// The listing of a bare directory: no content, checksum zero.
    pub fn directory(path: String, permissions: u32) -> (listing: Listing)
        ensures
            listing@ == (ListingView {
                path: path@,
                permissions,
                content_checksum: 0,
                content: Seq::empty(),
            }),
            is_directory(permissions) ==> listing@.consistent(),
    {
        let listing = Listing { path, permissions, content_checksum: 0, content: Vec::new() };
        listing
    }

    /// Whether `self` may stand before `other` in storage order.
    pub fn precedes(&self, other: &Listing) -> (le: bool)
        ensures
            le == precedes(self@, other@),
    {
        let own_path: usize = self.path.as_str().as_bytes().len();
        let other_path: usize = other.path.as_str().as_bytes().len();
        if self.content.len() != other.content.len() {
            self.content.len() < other.content.len()
        } else if own_path != other_path {
            own_path < other_path
        } else if self.permissions != other.permissions {
            self.permissions < other.permissions
        } else {
            content_le(&self.content, &other.content)
        }
    }

    /// Whether the listing is well-formed: whether its path is contained,
    /// and whether it is a bare directory without content and checksum
    /// or a file with the digest of its content.
    pub fn is_well_formed(&self) -> (b: bool)
        ensures
            b == self@.well_formed(),
    {
        if !path_is_contained(self.path.as_str().as_bytes()) {
            return false;
        }
        if has_directory_bit(self.permissions) {
            self.content.len() == 0 && self.content_checksum == 0
        } else {
            self.content_checksum == xxh3(self.content.as_slice())
        }
    }

    /// Whether two listings have the same rank in storage order: the
    /// same content, paths of the same length and the same mode bits.
    pub fn same_rank(&self, other: &Listing) -> (same: bool)
        ensures
            same == same_rank(self@, other@),
    {
        proof {
            lemma_same_rank(self@, other@);
        }
        self.content.len() == other.content.len() && self.path.as_str().as_bytes().len()
            == other.path.as_str().as_bytes().len() && self.permissions == other.permissions
            && same_bytes(self.content.as_slice(), other.content.as_slice())
    }

    /// Whether this listing is a bare directory.
    pub fn is_bare_directory(&self) -> (b: bool)
        ensures
            b == is_directory(self.permissions),
    {
        has_directory_bit(self.permissions)
    }
}

impl Ranking for ListingView {
    open spec fn before(&self, other: &Self) -> bool {
        precedes(*self, *other)
    }

    proof fn lemma_total(a: &Self, b: &Self) {
        lemma_precedes_total(*a, *b);
    }

    proof fn lemma_transitive(a: &Self, b: &Self, c: &Self) {
        lemma_precedes_transitive(*a, *b, *c);
    }
}

impl Ranking for Listing {
    open spec fn before(&self, other: &Self) -> bool {
        precedes(self@, other@)
    }

    proof fn lemma_total(a: &Self, b: &Self) {
        lemma_precedes_total(a@, b@);
    }

    proof fn lemma_transitive(a: &Self, b: &Self, c: &Self) {
        lemma_precedes_transitive(a@, b@, c@);
    }
}

impl Ranked for Listing {
    fn stands_before(&self, other: &Self) -> (b: bool) {
        self.precedes(other)
    }
}

/// What is sorted stably is in storage order.
pub proof fn lemma_stably_sorted_is_sorted(input: Seq<ListingView>, output: Seq<ListingView>)
    requires
        stably_sorted(input, output),
    ensures
        sorted(output),
{
}

/// Sorts listings into storage order. Listings that the order does not
/// tell apart keep the order in which they came.
pub fn sort_listings(listings: Vec<Listing>) -> (sorted_listings: Vec<Listing>)
    ensures
        stably_sorted(views(listings@), views(sorted_listings@)),
        sorted(views(sorted_listings@)),
{
    let result = stable_sort(listings);
    proof {
        let from = choose|from: Seq<int>| sorted_from(listings@, result@, from);
        let input = views(listings@);
        let output = views(result@);
        assert(sorted_from(input, output, from));
        lemma_stably_sorted_is_sorted(input, output);
    }
    result
}

} // verus!
