use decaf::create_archive;
use decaf::create_files;
use decaf::extract::read_entries;
use decaf::extract_from_reader;
use decaf::materialise::file_action;
use decaf::unarchive_from_reader;
use decaf::Archivable;
use decaf::DecafError;
use decaf::ExtractedArchive;
use decaf::ExtractedListing;
use decaf::FileAction;
use decaf::Listing;

fn sample() -> Vec<Listing> {
    vec![
        Listing::directory("empty".to_string(), 0o040755),
        Listing::file("file1.txt".to_string(), 0o100644, b"Hello, world!".to_vec()),
        Listing::file(
            "subdir/file2.txt".to_string(),
            0o100600,
            b"Slightly larger test content".to_vec(),
        ),
    ]
}

fn expected_actions() -> Vec<FileAction> {
    vec![
        FileAction::CreateDirectory { path: "empty".to_string() },
        FileAction::WriteFile {
            path: "file1.txt".to_string(),
            permissions: 0o100644,
            content: b"Hello, world!".to_vec(),
        },
        FileAction::WriteFile {
            path: "subdir/file2.txt".to_string(),
            permissions: 0o100600,
            content: b"Slightly larger test content".to_vec(),
        },
    ]
}

fn reseal(image: &mut [u8]) {
    let digest = xxhash_rust::xxh3::xxh3_64(&image[16..]);
    image[8..16].copy_from_slice(&digest.to_le_bytes());
}

#[test]
fn extraction_keeps_places_and_leaves_content_in_bundles() {
    let image = create_archive(&sample()).unwrap();
    let archive = extract_from_reader(&image).unwrap();
    assert_eq!(archive.bundles, vec![b"Hello, world!Slightly larger test content".to_vec()]);
    assert_eq!(archive.listings.len(), 3);
    let first = &archive.listings[0];
    assert_eq!(first.path, "empty");
    assert_eq!(first.permissions, 0o040755);
    assert_eq!((first.content_checksum, first.filesize, first.bundle_idx, first.bundle_offset), (0, 0, 0, 0));
    let second = &archive.listings[1];
    assert_eq!(second.path, "file1.txt");
    assert_eq!(second.content_checksum, xxhash_rust::xxh3::xxh3_64(b"Hello, world!"));
    assert_eq!((second.filesize, second.bundle_idx, second.bundle_offset), (13, 0, 0));
    let third = &archive.listings[2];
    assert_eq!(third.path, "subdir/file2.txt");
    assert_eq!(third.permissions, 0o100600);
    assert_eq!((third.filesize, third.bundle_idx, third.bundle_offset), (28, 0, 13));
}

#[test]
fn from_reader_and_extract_from_reader_agree() {
    let image = create_archive(&sample()).unwrap();
    let one = extract_from_reader(&image).unwrap();
    let other = ExtractedArchive::from_reader(&image).unwrap();
    assert_eq!(one.bundles, other.bundles);
    assert_eq!(one.listings.len(), other.listings.len());
    assert_eq!(extract_from_reader(&image[..60]).unwrap_err(), DecafError::TooSmall { length: 60 });
}

#[test]
fn every_listing_of_an_extracted_archive_comes_back() {
    let image = create_archive(&sample()).unwrap();
    let archive = extract_from_reader(&image).unwrap();
    assert_eq!(archive.create_all_files().unwrap(), expected_actions());
    assert_eq!(archive.create_file(&archive.listings[1]).unwrap(), expected_actions()[1]);
}

#[test]
fn extraction_checks_the_content_of_every_file() {
    let mut image = create_archive(&sample()).unwrap();
    let second = 40 + 49;
    let stored = u64::from_le_bytes(image[second + 36..second + 44].try_into().unwrap());
    image[second + 36..second + 44].copy_from_slice(&(stored ^ 1).to_le_bytes());
    reseal(&mut image);
    let failure = DecafError::BadListingChecksum {
        path: "file1.txt".to_string(),
        expected: stored ^ 1,
        actual: stored,
        bundle: 0,
        offset: 0,
        size: 13,
    };
    assert_eq!(extract_from_reader(&image).unwrap_err(), failure);
    assert_eq!(ExtractedArchive::from_reader(&image).unwrap_err(), failure);
    assert_eq!(decaf::unarchive_to_listings(&image).unwrap_err(), failure);
}

#[test]
fn extraction_refuses_content_that_leaves_its_bundle() {
    let mut image = create_archive(&sample()).unwrap();
    let second = 40 + 49;
    image[second + 24..second + 32].copy_from_slice(&42u64.to_le_bytes());
    reseal(&mut image);
    assert_eq!(extract_from_reader(&image).unwrap_err(), DecafError::Malformed);
    assert_eq!(decaf::unarchive_to_listings(&image).unwrap_err(), DecafError::Malformed);
}

#[test]
fn bringing_a_file_back_checks_its_content_again() {
    let image = create_archive(&sample()).unwrap();
    let mut archive = extract_from_reader(&image).unwrap();
    let stored = archive.listings[1].content_checksum;
    archive.listings[1].content_checksum = stored ^ 1;
    assert_eq!(archive.create_file(&archive.listings[0]).unwrap(), expected_actions()[0]);
    let failure = DecafError::BadListingChecksum {
        path: "file1.txt".to_string(),
        expected: stored ^ 1,
        actual: stored,
        bundle: 0,
        offset: 0,
        size: 13,
    };
    assert_eq!(archive.create_file(&archive.listings[1]).unwrap_err(), failure);
    assert_eq!(archive.create_all_files().unwrap_err(), failure);
}

#[test]
fn listing_that_points_outside_its_bundle_is_malformed() {
    let image = create_archive(&sample()).unwrap();
    let archive = extract_from_reader(&image).unwrap();
    let outside = ExtractedListing {
        path: "x".to_string(),
        permissions: 0o100644,
        content_checksum: 0,
        filesize: 2,
        bundle_idx: 0,
        bundle_offset: 40,
    };
    assert_eq!(archive.create_file(&outside).unwrap_err(), DecafError::Malformed);
    let no_bundle = ExtractedListing { bundle_idx: 1, bundle_offset: 0, ..outside };
    assert_eq!(archive.create_file(&no_bundle).unwrap_err(), DecafError::Malformed);
    let huge = ExtractedListing { bundle_idx: 0, bundle_offset: u64::MAX, ..no_bundle };
    assert_eq!(archive.create_file(&huge).unwrap_err(), DecafError::Malformed);
}

#[test]
fn entries_are_read_up_to_the_count_asked_for() {
    let image = create_archive(&sample()).unwrap();
    let bundles = decaf::decode::read_bundles(&image).unwrap();
    assert_eq!(read_entries(&image, &bundles, 0).unwrap().len(), 0);
    assert_eq!(read_entries(&image, &bundles, 2).unwrap().len(), 2);
    assert_eq!(read_entries(&image, &bundles, 3).unwrap()[2].path, "subdir/file2.txt");
    let none: Vec<Vec<u8>> = Vec::new();
    assert_eq!(read_entries(&image, &none, 1).unwrap().len(), 1);
    assert_eq!(read_entries(&image, &none, 2).unwrap_err(), DecafError::Malformed);
}

#[test]
fn listings_turn_into_one_step_each() {
    assert_eq!(create_files(sample()), expected_actions());
    assert_eq!(create_files(Vec::new()), Vec::<FileAction>::new());
    let odd = Listing {
        path: "d".to_string(),
        permissions: 0o040700,
        content_checksum: 9,
        content: b"ignored".to_vec(),
    };
    assert_eq!(file_action(odd), FileAction::CreateDirectory { path: "d".to_string() });
}

#[test]
fn image_turns_into_steps() {
    let image = create_archive(&sample()).unwrap();
    assert_eq!(unarchive_from_reader(&image).unwrap(), expected_actions());
    let mut broken = image.clone();
    broken[20] ^= 4;
    assert_eq!(unarchive_from_reader(&broken).unwrap_err(), DecafError::BadArchiveChecksum);
}

#[test]
fn vector_of_listings_is_archivable() {
    let image = Archivable::create_archive(sample()).unwrap();
    assert_eq!(image, create_archive(&sample()).unwrap());
    let other = decaf::DecafListing::create_archive(sample()).unwrap();
    assert_eq!(image, other);
    assert_eq!(decaf::DecafListing::create_files(sample()), expected_actions());
}

#[test]
fn steps_that_leave_the_output_directory_are_refused() {
    let inside = FileAction::CreateDirectory { path: "a/b".to_string() };
    let outside = FileAction::WriteFile {
        path: "../etc/passwd".to_string(),
        permissions: 0o100644,
        content: Vec::new(),
    };
    let rooted = FileAction::CreateDirectory { path: "/tmp".to_string() };
    assert!(inside.is_contained());
    assert!(!outside.is_contained());
    assert!(!rooted.is_contained());
    assert_eq!(inside.clone().checked(), Ok(inside.clone()));
    assert_eq!(outside.clone().checked(), Err(DecafError::InvalidPath));
    assert_eq!(decaf::contained_steps(expected_actions()), Ok(expected_actions()));
    assert_eq!(decaf::contained_steps(Vec::new()), Ok(Vec::new()));
    assert_eq!(
        decaf::contained_steps(vec![inside.clone(), outside, inside]),
        Err(DecafError::InvalidPath)
    );
}

#[test]
fn decoder_and_extractor_give_the_same_failure() {
    let mut image = create_archive(&sample()).unwrap();
    let directory = 40 + u64::from_le_bytes(image[16..24].try_into().unwrap()) as usize;
    let offset = u64::from_le_bytes(image[directory..directory + 8].try_into().unwrap()) as usize;
    image[offset] ^= 0xff;
    reseal(&mut image);
    assert!(matches!(extract_from_reader(&image).unwrap_err(), DecafError::Io { .. }));
    assert!(matches!(unarchive_from_reader(&image).unwrap_err(), DecafError::Io { .. }));
    assert!(matches!(
        ExtractedArchive::from_reader(&image).unwrap_err(),
        DecafError::Io { .. }
    ));
}
