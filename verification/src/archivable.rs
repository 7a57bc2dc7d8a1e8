//! Encoding and materialising as capabilities of a sequence of listings.

use crate::encode::{create_archive, encoding, image_view, restorable};
use crate::error::{DecafError, Failure};
use crate::format::decoded;
use crate::layout::packed_bundles;
use crate::listing::{all_consistent, views, Listing, ListingView};
use crate::materialise::{create_files, steps, steps_of, FileAction};
use vstd::prelude::*;

verus! {

/// What an encoder answers for `listings`: their image, which decodes
/// to them if they are consistent; or `Io`, if the compressor gives no
/// stream for one of their bundles.
pub open spec fn encoded(listings: Seq<ListingView>, outcome: Result<Vec<u8>, DecafError>) -> bool {
    &&& image_view(outcome) == encoding(listings)
    &&& outcome matches Ok(image) ==> {
        &&& restorable(packed_bundles(listings))
        &&& all_consistent(listings) ==> decoded(image@) == Ok::<Seq<ListingView>, Failure>(
            listings,
        )
    }
}

/// Something that holds listings and can be encoded.
pub trait Archivable: Sized {
    /// The listings, in the order in which they are encoded.
    spec fn listings(&self) -> Seq<ListingView>;

    /// Encodes the listings into an archive image.
    fn create_archive(self) -> (outcome: Result<Vec<u8>, DecafError>)
        ensures
            encoded(self.listings(), outcome),
    ;
}

impl Archivable for Vec<Listing> {
    open spec fn listings(&self) -> Seq<ListingView> {
        views(self@)
    }

    fn create_archive(self) -> (outcome: Result<Vec<u8>, DecafError>) {
        create_archive(&self)
    }
}

/// Something that holds listings and can be encoded or brought back to
/// disk.
pub trait DecafListing: Sized {
    /// The listings, in their order.
    spec fn listings(&self) -> Seq<ListingView>;

    /// Encodes the listings into an archive image.
    fn create_archive(self) -> (outcome: Result<Vec<u8>, DecafError>)
        ensures
            encoded(self.listings(), outcome),
    ;

    /// Says what has to be done on disk to bring the listings back.
    fn create_files(self) -> (actions: Vec<FileAction>)
        ensures
            steps(actions@) == steps_of(self.listings()),
    ;
}

impl DecafListing for Vec<Listing> {
    open spec fn listings(&self) -> Seq<ListingView> {
        views(self@)
    }

    fn create_archive(self) -> (outcome: Result<Vec<u8>, DecafError>) {
        create_archive(&self)
    }

    fn create_files(self) -> (actions: Vec<FileAction>) {
        create_files(self)
    }
}

/// Encoding is a function of the listings: two answers for the same
/// listings are both images, and then the same bytes, or both `Io`.
pub proof fn lemma_encoding_deterministic(
    listings: Seq<ListingView>,
    first: Result<Vec<u8>, DecafError>,
    second: Result<Vec<u8>, DecafError>,
)
    requires
        encoded(listings, first),
        encoded(listings, second),
    ensures
        first is Ok <==> second is Ok,
        first is Ok ==> first->Ok_0@ == second->Ok_0@,
        image_view(first) == image_view(second),
{
}

} // verus!
