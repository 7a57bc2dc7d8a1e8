use decaf::create_archive;
use decaf::decode::accept_bundle;
use decaf::decode::check_frame;
use decaf::decode::check_record;
use decaf::decode::read_bundles;
use decaf::decode::read_listings;
use decaf::decode::read_record;
use decaf::encode::assemble_image;
use decaf::encode::compress_bundles;
use decaf::encode::pack_listings;
use decaf::unarchive_to_listings;
use decaf::DecafError;
use decaf::Listing;
use std::io::Write;

fn sample() -> Vec<Listing> {
    vec![
        Listing::directory("empty".to_string(), 0o040755),
        Listing::file("file1.txt".to_string(), 0o100644, b"Hello, world!".to_vec()),
        Listing::file(
            "subdir/file2.txt".to_string(),
            0o100644,
            b"Slightly larger test content".to_vec(),
        ),
    ]
}

fn same(a: &[Listing], b: &[Listing]) -> bool {
    a.len() == b.len()
        && a.iter().zip(b.iter()).all(|(x, y)| {
            x.path == y.path
                && x.permissions == y.permissions
                && x.content_checksum == y.content_checksum
                && x.content == y.content
        })
}

fn u64_at(image: &[u8], at: usize) -> u64 {
    u64::from_le_bytes(image[at..at + 8].try_into().unwrap())
}

fn put_u64(image: &mut [u8], at: usize, value: u64) {
    image[at..at + 8].copy_from_slice(&value.to_le_bytes());
}

fn reseal(image: &mut [u8]) {
    let digest = xxhash_rust::xxh3::xxh3_64(&image[16..]);
    put_u64(image, 8, digest);
}

fn noise(length: usize) -> Vec<u8> {
    let mut state: u64 = 0x9e37_79b9_7f4a_7c15;
    let mut bytes = Vec::with_capacity(length);
    for _ in 0..length {
        state = state.wrapping_mul(6364136223846793005).wrapping_add(1442695040888963407);
        bytes.push((state >> 56) as u8);
    }
    bytes
}

fn reference_stream(data: &[u8]) -> Vec<u8> {
    let mut encoder = zstd::stream::Encoder::new(Vec::new(), 3).unwrap();
    encoder.set_pledged_src_size(Some(data.len() as u64)).unwrap();
    encoder.include_checksum(false).unwrap();
    encoder.include_contentsize(false).unwrap();
    encoder.write_all(data).unwrap();
    encoder.finish().unwrap()
}

#[test]
fn round_trip_restores_every_listing() {
    let listings = sample();
    let image = create_archive(&listings).unwrap();
    let decoded = unarchive_to_listings(&image).unwrap();
    assert!(same(&listings, &decoded));
}

#[test]
fn decaf_archive_and_unarchive() {
    let listings = vec![
        Listing::file("file1.txt".to_string(), 0o100644, b"Hello, world!".to_vec()),
        Listing::file(
            "subdir/file2.txt".to_string(),
            0o100644,
            b"Slightly larger test content".to_vec(),
        ),
    ];
    let archive_result = create_archive(&listings);
    assert!(archive_result.is_ok());
    let extract_result = unarchive_to_listings(&archive_result.unwrap());
    assert!(extract_result.is_ok());
    let extracted = extract_result.unwrap();
    assert_eq!(extracted[0].path, "file1.txt");
    assert_eq!(extracted[0].content, b"Hello, world!".to_vec());
    assert_eq!(extracted[1].path, "subdir/file2.txt");
    assert_eq!(extracted[1].content, b"Slightly larger test content".to_vec());
}

#[test]
fn image_starts_with_magic_and_checksum() {
    let image = create_archive(&sample()).unwrap();
    assert_eq!(&image[0..8], b"iamdecaf");
    assert_eq!(u64_at(&image, 8), xxhash_rust::xxh3::xxh3_64(&image[16..]));
}

#[test]
fn image_of_one_small_file_is_laid_out_field_by_field() {
    let listings = vec![Listing::file("a".to_string(), 0o100644, b"hi".to_vec())];
    let image = create_archive(&listings).unwrap();
    let stream = reference_stream(b"hi");
    assert_eq!(u64_at(&image, 16), 45);
    assert_eq!(u64_at(&image, 24), 1);
    assert_eq!(u64_at(&image, 32), 1);
    assert_eq!(u64_at(&image, 40), 45);
    assert_eq!(u64_at(&image, 48), 0);
    assert_eq!(u64_at(&image, 56), 0);
    assert_eq!(u64_at(&image, 64), 2);
    assert_eq!(&image[72..76], &0o100644u32.to_le_bytes());
    assert_eq!(u64_at(&image, 76), xxhash_rust::xxh3::xxh3_64(b"hi"));
    assert_eq!(&image[84..85], b"a");
    assert_eq!(u64_at(&image, 85), 109);
    assert_eq!(u64_at(&image, 93), stream.len() as u64);
    assert_eq!(u64_at(&image, 101), xxhash_rust::xxh3::xxh3_64(b"hi"));
    assert_eq!(&image[109..], &stream[..]);
    assert_eq!(image.len(), 109 + stream.len());
}

#[test]
fn compressed_bundle_is_a_zstd_stream_of_the_bundle() {
    let listings = sample();
    let image = create_archive(&listings).unwrap();
    let directory = 40 + u64_at(&image, 16) as usize;
    let offset = u64_at(&image, directory) as usize;
    let size = u64_at(&image, directory + 8) as usize;
    let bundle = zstd::stream::decode_all(&image[offset..offset + size]).unwrap();
    assert_eq!(bundle, b"Hello, world!Slightly larger test content".to_vec());
    assert_ne!(&image[offset..offset + size], &bundle[..]);
    assert_eq!(u64_at(&image, directory + 16), xxhash_rust::xxh3::xxh3_64(&bundle));
}

#[test]
fn encoding_twice_gives_the_same_bytes() {
    let first = create_archive(&sample()).unwrap();
    let second = create_archive(&sample()).unwrap();
    assert_eq!(first, second);
}

#[test]
fn decoding_and_encoding_again_gives_the_same_image() {
    let image = create_archive(&sample()).unwrap();
    let decoded = unarchive_to_listings(&image).unwrap();
    let again = create_archive(&decoded).unwrap();
    assert_eq!(image, again);
}

#[test]
fn empty_directory_comes_back_as_bare_directory() {
    let listings = vec![Listing::directory("empty".to_string(), 0o040755)];
    let image = create_archive(&listings).unwrap();
    let decoded = unarchive_to_listings(&image).unwrap();
    assert_eq!(decoded.len(), 1);
    assert_eq!(decoded[0].path, "empty");
    assert_eq!(decoded[0].permissions & 0o040000, 0o040000);
    assert_eq!(decoded[0].permissions, 0o040755);
    assert!(decoded[0].content.is_empty());
    assert_eq!(decoded[0].content_checksum, 0);
}

#[test]
fn no_listings_give_one_empty_bundle() {
    let listings: Vec<Listing> = Vec::new();
    let packed = pack_listings(&listings);
    assert!(packed.table.is_empty());
    assert_eq!(packed.bundles, vec![Vec::<u8>::new()]);
    let image = create_archive(&listings).unwrap();
    assert!(image.len() >= 64);
    assert_eq!(u64_at(&image, 16), 0);
    assert_eq!(u64_at(&image, 24), 0);
    assert_eq!(u64_at(&image, 32), 1);
    assert!(unarchive_to_listings(&image).unwrap().is_empty());
}

#[test]
fn large_file_stays_whole_in_one_bundle() {
    let content = noise(25_000_000);
    let listings = vec![Listing::file("big.bin".to_string(), 0o100600, content.clone())];
    let packed = pack_listings(&listings);
    assert_eq!(packed.bundles.len(), 1);
    assert_eq!(packed.bundles[0].len(), 25_000_000);
    let image = create_archive(&listings).unwrap();
    let decoded = unarchive_to_listings(&image).unwrap();
    assert_eq!(decoded.len(), 1);
    assert_eq!(decoded[0].content, content);
}

#[test]
fn new_bundle_starts_only_after_the_target_is_exceeded() {
    let listings = vec![
        Listing::file("a".to_string(), 0o100644, vec![1u8; 10_000_000]),
        Listing::file("b".to_string(), 0o100644, vec![2u8; 1]),
        Listing::file("c".to_string(), 0o100644, vec![3u8; 1]),
        Listing::directory("d".to_string(), 0o040755),
    ];
    let packed = pack_listings(&listings);
    assert_eq!(packed.bundles.len(), 2);
    assert_eq!(packed.bundles[0].len(), 10_000_001);
    assert_eq!(packed.bundles[1], vec![3u8]);
    let table = &packed.table;
    assert_eq!(u64_at(table, 8), 0);
    assert_eq!(u64_at(table, 16), 0);
    assert_eq!(u64_at(table, 45 + 8), 0);
    assert_eq!(u64_at(table, 45 + 16), 10_000_000);
    assert_eq!(u64_at(table, 90 + 8), 1);
    assert_eq!(u64_at(table, 90 + 16), 0);
    assert_eq!(u64_at(table, 135 + 8), 1);
    assert_eq!(u64_at(table, 135 + 16), 1);
    assert_eq!(u64_at(table, 135 + 24), 0);
}

#[test]
fn image_is_assembled_from_given_parts() {
    let table = vec![7u8; 3];
    let checksums = vec![11u64, 22u64];
    let streams = vec![vec![0xaau8; 2], vec![0xbbu8; 5]];
    let image = assemble_image(&table, 9, &checksums, &streams);
    assert_eq!(&image[0..8], b"iamdecaf");
    assert_eq!(u64_at(&image, 8), xxhash_rust::xxh3::xxh3_64(&image[16..]));
    assert_eq!(u64_at(&image, 16), 3);
    assert_eq!(u64_at(&image, 24), 9);
    assert_eq!(u64_at(&image, 32), 2);
    assert_eq!(&image[40..43], &[7u8, 7, 7]);
    assert_eq!(u64_at(&image, 43), 91);
    assert_eq!(u64_at(&image, 51), 2);
    assert_eq!(u64_at(&image, 59), 11);
    assert_eq!(u64_at(&image, 67), 93);
    assert_eq!(u64_at(&image, 75), 5);
    assert_eq!(u64_at(&image, 83), 22);
    assert_eq!(&image[91..], &[0xaau8, 0xaa, 0xbb, 0xbb, 0xbb, 0xbb, 0xbb]);
}

#[test]
fn bundles_are_compressed_as_the_format_says() {
    let bundles = vec![b"Hello, world!".to_vec(), Vec::new()];
    let compressed = compress_bundles(&bundles).unwrap();
    assert_eq!(
        compressed.checksums,
        vec![xxhash_rust::xxh3::xxh3_64(b"Hello, world!"), xxhash_rust::xxh3::xxh3_64(b"")]
    );
    assert_eq!(compressed.streams[0], reference_stream(b"Hello, world!"));
    assert_eq!(compressed.streams[1], reference_stream(b""));
}

#[test]
fn short_input_is_too_small() {
    let outcome = unarchive_to_listings(&[0u8; 63]);
    assert_eq!(outcome.unwrap_err(), DecafError::TooSmall { length: 63 });
    assert_eq!(check_frame(&[]).unwrap_err(), DecafError::TooSmall { length: 0 });
}

#[test]
fn wrong_magic_is_refused() {
    let mut image = create_archive(&sample()).unwrap();
    image[0] = b'n';
    image[1] = b'o';
    image[2] = b't';
    assert_eq!(unarchive_to_listings(&image).unwrap_err(), DecafError::BadMagic);
    let zeros = [0u8; 64];
    assert_eq!(unarchive_to_listings(&zeros).unwrap_err(), DecafError::BadMagic);
}

#[test]
fn changed_byte_at_offset_200_fails_the_archive_checksum() {
    let mut listings = sample();
    listings.push(Listing::file("filler".to_string(), 0o100644, noise(4096)));
    let mut image = create_archive(&listings).unwrap();
    assert!(image.len() > 200);
    image[200] ^= 0x01;
    assert_eq!(unarchive_to_listings(&image).unwrap_err(), DecafError::BadArchiveChecksum);
}

#[test]
fn every_single_bit_flip_behind_the_magic_is_detected() {
    let image = create_archive(&sample()).unwrap();
    for at in 8..image.len() {
        for bit in 0..8 {
            let mut changed = image.clone();
            changed[at] ^= 1 << bit;
            let failure = unarchive_to_listings(&changed).unwrap_err();
            assert!(matches!(
                failure,
                DecafError::BadArchiveChecksum
                    | DecafError::BadBundleChecksum { .. }
                    | DecafError::BadListingChecksum { .. }
            ));
        }
    }
}

#[test]
fn changed_checksum_field_fails_the_archive_checksum() {
    let mut image = create_archive(&sample()).unwrap();
    image[8] ^= 0x80;
    assert_eq!(check_frame(&image).unwrap_err(), DecafError::BadArchiveChecksum);
}

#[test]
fn wrong_bundle_checksum_names_the_bundle() {
    let mut image = create_archive(&sample()).unwrap();
    let directory = 40 + u64_at(&image, 16) as usize;
    let stored = u64_at(&image, directory + 16);
    put_u64(&mut image, directory + 16, stored ^ 1);
    reseal(&mut image);
    assert_eq!(
        unarchive_to_listings(&image).unwrap_err(),
        DecafError::BadBundleChecksum { bundle: 0 }
    );
}

#[test]
fn wrong_listing_checksum_names_path_and_place() {
    let mut image = create_archive(&sample()).unwrap();
    let second = 40 + u64_at(&image, 40) as usize;
    let third = second + u64_at(&image, second) as usize;
    let expected = u64_at(&image, third + 36) ^ 0xff;
    put_u64(&mut image, third + 36, expected);
    reseal(&mut image);
    assert_eq!(
        unarchive_to_listings(&image).unwrap_err(),
        DecafError::BadListingChecksum {
            path: "subdir/file2.txt".to_string(),
            expected,
            actual: xxhash_rust::xxh3::xxh3_64(b"Slightly larger test content"),
            bundle: 0,
            offset: 13,
            size: 28,
        }
    );
}

#[test]
fn record_that_leaves_the_input_is_malformed() {
    let mut image = create_archive(&sample()).unwrap();
    let length = image.len() as u64;
    put_u64(&mut image, 40, length);
    reseal(&mut image);
    assert_eq!(unarchive_to_listings(&image).unwrap_err(), DecafError::Malformed);
}

#[test]
fn record_shorter_than_its_fixed_fields_is_malformed() {
    let mut image = create_archive(&sample()).unwrap();
    put_u64(&mut image, 40, 43);
    reseal(&mut image);
    assert_eq!(unarchive_to_listings(&image).unwrap_err(), DecafError::Malformed);
}

#[test]
fn content_that_leaves_its_bundle_is_malformed() {
    let mut image = create_archive(&sample()).unwrap();
    let second = 40 + u64_at(&image, 40) as usize;
    put_u64(&mut image, second + 24, 42);
    reseal(&mut image);
    assert_eq!(unarchive_to_listings(&image).unwrap_err(), DecafError::Malformed);
    let mut image = create_archive(&sample()).unwrap();
    put_u64(&mut image, second + 8, 1);
    reseal(&mut image);
    assert_eq!(unarchive_to_listings(&image).unwrap_err(), DecafError::Malformed);
}

#[test]
fn directory_that_leaves_the_input_is_malformed() {
    let mut image = create_archive(&sample()).unwrap();
    put_u64(&mut image, 32, u64::MAX);
    reseal(&mut image);
    assert_eq!(unarchive_to_listings(&image).unwrap_err(), DecafError::Malformed);
    let mut image = create_archive(&sample()).unwrap();
    put_u64(&mut image, 16, u64::MAX);
    reseal(&mut image);
    assert_eq!(unarchive_to_listings(&image).unwrap_err(), DecafError::Malformed);
}

#[test]
fn compressed_bundle_that_leaves_the_input_is_malformed() {
    let mut image = create_archive(&sample()).unwrap();
    let directory = 40 + u64_at(&image, 16) as usize;
    let size = u64_at(&image, directory + 8);
    put_u64(&mut image, directory + 8, size + 1);
    reseal(&mut image);
    assert_eq!(unarchive_to_listings(&image).unwrap_err(), DecafError::Malformed);
}

#[test]
fn path_that_is_not_utf8_is_invalid() {
    let mut image = create_archive(&sample()).unwrap();
    image[40 + 44] = 0xff;
    reseal(&mut image);
    assert_eq!(unarchive_to_listings(&image).unwrap_err(), DecafError::InvalidPath);
}

#[test]
fn broken_compressed_bundle_is_an_io_failure() {
    let mut image = create_archive(&sample()).unwrap();
    let directory = 40 + u64_at(&image, 16) as usize;
    let offset = u64_at(&image, directory) as usize;
    image[offset] ^= 0xff;
    reseal(&mut image);
    assert!(matches!(unarchive_to_listings(&image).unwrap_err(), DecafError::Io { .. }));
}

#[test]
fn record_with_directory_bit_ignores_its_locator() {
    let mut image = create_archive(&sample()).unwrap();
    put_u64(&mut image, 40 + 8, 77);
    put_u64(&mut image, 40 + 16, 88);
    put_u64(&mut image, 40 + 24, 99);
    put_u64(&mut image, 40 + 36, 5);
    reseal(&mut image);
    let decoded = unarchive_to_listings(&image).unwrap();
    assert!(same(&decoded, &sample()));
}

#[test]
fn bundle_is_accepted_by_its_digest_alone() {
    let data = b"bundle".to_vec();
    let digest = xxhash_rust::xxh3::xxh3_64(&data);
    assert_eq!(accept_bundle(Ok(data.clone()), digest, 4), Ok(data.clone()));
    assert_eq!(
        accept_bundle(Ok(data), digest + 1, 4),
        Err(DecafError::BadBundleChecksum { bundle: 4 })
    );
    assert_eq!(
        accept_bundle(Err("no".to_string()), digest, 4),
        Err(DecafError::Io { message: "no".to_string() })
    );
}

#[test]
fn parts_of_decoding_agree_with_the_whole() {
    let image = create_archive(&sample()).unwrap();
    assert_eq!(check_frame(&image), Ok(()));
    let bundles = read_bundles(&image).unwrap();
    assert_eq!(bundles, vec![b"Hello, world!Slightly larger test content".to_vec()]);
    let listings = read_listings(&image, &bundles, 3).unwrap();
    assert!(same(&listings, &sample()));
    let two = read_listings(&image, &bundles, 2).unwrap();
    assert!(same(&two, &sample()[..2]));
    let (record, next) = read_record(&image, 40).unwrap();
    assert_eq!(record.path, "empty");
    assert_eq!(record.permissions, 0o040755);
    assert_eq!(next, 40 + 44 + 5);
}

#[test]
fn record_is_checked_where_its_content_lies() {
    let image = create_archive(&sample()).unwrap();
    let bundles = read_bundles(&image).unwrap();
    let (directory, next) = read_record(&image, 40).unwrap();
    assert_eq!(check_record(&directory, &bundles), Ok(()));
    let (mut file, _) = read_record(&image, next).unwrap();
    assert_eq!(check_record(&file, &bundles), Ok(()));
    file.offset = 1;
    assert_eq!(
        check_record(&file, &bundles),
        Err(DecafError::BadListingChecksum {
            path: "file1.txt".to_string(),
            expected: xxhash_rust::xxh3::xxh3_64(b"Hello, world!"),
            actual: xxhash_rust::xxh3::xxh3_64(b"ello, world!S"),
            bundle: 0,
            offset: 1,
            size: 13,
        })
    );
    file.file_size = 41;
    assert_eq!(check_record(&file, &bundles), Err(DecafError::Malformed));
    file.bundle_index = 1;
    file.file_size = 0;
    assert_eq!(check_record(&file, &bundles), Err(DecafError::Malformed));
}
