//! The failures that encoding, decoding and tar emission can report.

use vstd::prelude::*;

verus! {

/// A fatal error of the codec or of the tar emitter.
#[derive(Debug, Clone, PartialEq, Eq)]
pub enum DecafError {
    /// A compressor or decompressor failed; `message` is its own text.
    Io { message: String },
    /// The input is shorter than the smallest possible archive.
    TooSmall { length: usize },
    /// The first eight bytes are not the magic number.
    BadMagic,
    /// The stored archive checksum does not match the archive body.
    BadArchiveChecksum,
    /// A decompressed bundle does not match its stored checksum.
    BadBundleChecksum { bundle: u64 },
    /// The content of a listing does not match its stored checksum.
    BadListingChecksum {
        path: String,
        expected: u64,
        actual: u64,
        bundle: u64,
        offset: u64,
        size: u64,
    },
    /// A path is not valid UTF-8.
    InvalidPath,
    /// The archive is framed correctly but a table entry, a record or a
    /// locator points outside the data it refers to.
    Malformed,
    /// A path does not fit into a tar header.
    PathTooLong { length: usize },
    /// A number does not fit into its octal field of a tar header.
    FieldOverflow { value: u64 },
}

/// What a `DecafError` says, as a mathematical value.
pub enum Failure {
    Io,
    TooSmall { length: nat },
    BadMagic,
    BadArchiveChecksum,
    BadBundleChecksum { bundle: u64 },
    BadListingChecksum {
        path: Seq<char>,
        expected: u64,
        actual: u64,
        bundle: u64,
        offset: u64,
        size: u64,
    },
    InvalidPath,
    Malformed,
    PathTooLong { length: nat },
    FieldOverflow { value: nat },
}

impl View for DecafError {
    type V = Failure;

    open spec fn view(&self) -> Failure {
        match self {
            DecafError::Io { .. } => Failure::Io,
            DecafError::TooSmall { length } => Failure::TooSmall { length: *length as nat },
            DecafError::BadMagic => Failure::BadMagic,
            DecafError::BadArchiveChecksum => Failure::BadArchiveChecksum,
            DecafError::BadBundleChecksum { bundle } => Failure::BadBundleChecksum {
                bundle: *bundle,
            },
            DecafError::BadListingChecksum { path, expected, actual, bundle, offset, size } =>
                Failure::BadListingChecksum {
                    path: path@,
                    expected: *expected,
                    actual: *actual,
                    bundle: *bundle,
                    offset: *offset,
                    size: *size,
                },
            DecafError::InvalidPath => Failure::InvalidPath,
            DecafError::Malformed => Failure::Malformed,
            DecafError::PathTooLong { length } => Failure::PathTooLong { length: *length as nat },
            DecafError::FieldOverflow { value } => Failure::FieldOverflow { value: *value as nat },
        }
    }
}

} // verus!
