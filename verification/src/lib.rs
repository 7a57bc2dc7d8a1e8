//! DeCAF, a deterministic content archive format.
//!
//! A directory tree is turned into a sorted sequence of listings, the
//! listings are packed into bundles, and the bundles are compressed and
//! framed into one integrity-checked archive image. Decoding reverses this.
//! A deterministic ustar emitter works from the same listings.

pub mod archivable;
pub mod checksum;
pub mod compress;
pub mod decode;
pub mod encode;
pub mod error;
pub mod extract;
pub mod format;
pub mod layout;
pub mod listing;
pub mod materialise;
pub mod order;
pub mod pending;
pub mod relpath;
pub mod roundtrip;
pub mod scan;
pub mod tamper;
pub mod tar;
pub mod text;
pub mod wire;

pub use crate::archivable::Archivable;
pub use crate::archivable::DecafListing;
pub use crate::decode::unarchive_to_listings;
pub use crate::encode::create_archive;
pub use crate::error::DecafError;
pub use crate::extract::extract_from_reader;
pub use crate::extract::ExtractedArchive;
pub use crate::extract::ExtractedListing;
pub use crate::listing::sort_listings;
pub use crate::listing::Listing;
pub use crate::materialise::contained_steps;
pub use crate::materialise::create_files;
pub use crate::materialise::unarchive_from_reader;
pub use crate::materialise::FileAction;
pub use crate::pending::create_archive_from_directory;
pub use crate::pending::ArchivableArchive;
pub use crate::pending::ArchivableListing;
pub use crate::pending::FoundEntry;
pub use crate::relpath::relative_path_from;
pub use crate::relpath::PathComponent;
pub use crate::scan::create_listings_from_directory;
pub use crate::scan::EntryKind;
pub use crate::scan::ScannedEntry;
pub use crate::tar::create_tar;
pub use crate::tar::create_tar_gz;
