use decaf::create_tar;
use decaf::create_tar_gz;
use decaf::tar::accept_stream;
use decaf::tar::calculate_checksum;
use decaf::tar::octal_digits;
use decaf::tar::split_path;
use decaf::tar::write_header;
use decaf::tar::write_octal;
use decaf::DecafError;
use decaf::Listing;
use std::io::Read;

fn sample() -> Vec<Listing> {
    vec![
        Listing::directory("empty".to_string(), 0o040755),
        Listing::file("file1.txt".to_string(), 0o100644, b"Hello, world!".to_vec()),
    ]
}

fn field(block: &[u8], from: usize, to: usize) -> &[u8] {
    &block[from..to]
}

fn expected_checksum(block: &[u8]) -> u64 {
    let mut sum: u64 = 0;
    for (i, byte) in block[..512].iter().enumerate() {
        sum += if (148..156).contains(&i) { 32 } else { *byte as u64 };
    }
    sum
}

#[test]
fn octal_digits_are_padded_to_the_width() {
    assert_eq!(octal_digits(0o644, 6), b"000644".to_vec());
    assert_eq!(octal_digits(0o100644, 6), b"100644".to_vec());
    assert_eq!(octal_digits(13, 10), b"0000000015".to_vec());
    assert_eq!(octal_digits(0, 1), b"0".to_vec());
    assert_eq!(octal_digits(0, 0), b"0".to_vec());
    assert_eq!(octal_digits(7, 0), b"7".to_vec());
    assert_eq!(octal_digits(8, 1), b"10".to_vec());
    assert_eq!(octal_digits(0o7777777, 6), b"7777777".to_vec());
    assert_eq!(octal_digits(u64::MAX, 3), b"1777777777777777777777".to_vec());
}

#[test]
fn octal_field_is_written_with_a_nul_behind_it() {
    let mut buffer = vec![0xeeu8; 12];
    assert_eq!(write_octal(&mut buffer, 2, 8, 0o755, 7), Ok(()));
    assert_eq!(buffer, b"\xee\xee000755\x00\xee\xee\xee".to_vec());
    let mut buffer = vec![0xeeu8; 8];
    assert_eq!(write_octal(&mut buffer, 0, 8, 0o7777777, 7), Ok(()));
    assert_eq!(buffer, b"7777777\x00".to_vec());
}

#[test]
fn octal_field_that_overflows_is_refused() {
    let mut buffer = vec![0xeeu8; 8];
    assert_eq!(
        write_octal(&mut buffer, 0, 8, 0o10000000, 7),
        Err(DecafError::FieldOverflow { value: 0o10000000 })
    );
    assert_eq!(buffer, vec![0xeeu8; 8]);
}

#[test]
fn checksum_counts_its_own_field_as_spaces() {
    let zero = [0u8; 512];
    assert_eq!(calculate_checksum(&zero), 256);
    let mut block = [0u8; 512];
    block[0] = 1;
    block[147] = 2;
    block[148] = 200;
    block[155] = 200;
    block[156] = 3;
    block[511] = 255;
    assert_eq!(calculate_checksum(&block), 256 + 1 + 2 + 3 + 255);
    let full = [255u8; 512];
    assert_eq!(calculate_checksum(&full), 504 * 255 + 256);
}

#[test]
fn short_path_is_all_name() {
    let path = vec![b'a'; 100];
    let (name, prefix) = split_path(&path).unwrap();
    assert_eq!(name, &path[..]);
    assert!(prefix.is_empty());
    let (name, prefix) = split_path(b"dir/file").unwrap();
    assert_eq!(name, b"dir/file");
    assert!(prefix.is_empty());
}

#[test]
fn long_path_is_split_behind_the_last_slash_that_leaves_a_full_name() {
    let mut path = vec![b'p'; 60];
    path.push(b'/');
    path.extend_from_slice(&[b'q'; 100]);
    let (name, prefix) = split_path(&path).unwrap();
    assert_eq!(name, &[b'q'; 100][..]);
    assert_eq!(prefix, &path[..61]);
    let mut path = b"a/b/".to_vec();
    path.extend_from_slice(&[b'c'; 50]);
    path.push(b'/');
    path.extend_from_slice(&[b'd'; 80]);
    let (name, prefix) = split_path(&path).unwrap();
    assert_eq!(prefix, b"a/b/");
    assert_eq!(name.len(), 131);
}

#[test]
fn long_path_without_slash_in_front_has_no_prefix() {
    let path = vec![b'x'; 120];
    let (name, prefix) = split_path(&path).unwrap();
    assert_eq!(name.len(), 120);
    assert!(prefix.is_empty());
}

#[test]
fn path_of_more_than_255_bytes_is_too_long() {
    let path = vec![b'x'; 256];
    assert_eq!(split_path(&path).unwrap_err(), DecafError::PathTooLong { length: 256 });
    assert!(split_path(&vec![b'x'; 255]).is_ok());
    assert_eq!(
        write_header(&path, 0o100644, b"").unwrap_err(),
        DecafError::PathTooLong { length: 256 }
    );
}

#[test]
fn header_of_a_file_holds_its_fields() {
    let entry = write_header(b"top/file1.txt", 0o100644, b"Hello, world!").unwrap();
    assert_eq!(entry.len(), 1024);
    assert_eq!(field(&entry, 0, 13), b"top/file1.txt");
    assert_eq!(field(&entry, 13, 100), &[0u8; 87][..]);
    assert_eq!(field(&entry, 100, 108), b"100644\0\0");
    assert_eq!(field(&entry, 108, 124), &[0u8; 16][..]);
    assert_eq!(field(&entry, 124, 136), b"0000000015\0\0");
    assert_eq!(field(&entry, 136, 148), &[0u8; 12][..]);
    assert_eq!(entry[156], b'0');
    assert_eq!(field(&entry, 157, 257), &[0u8; 100][..]);
    assert_eq!(field(&entry, 257, 263), b"ustar\0");
    assert_eq!(field(&entry, 263, 265), b"00");
    assert_eq!(field(&entry, 265, 512), &[0u8; 247][..]);
    let sum = expected_checksum(&entry);
    assert_eq!(field(&entry, 148, 156), format!("{:06o}\0 ", sum).as_bytes());
    assert_eq!(field(&entry, 512, 525), b"Hello, world!");
    assert_eq!(field(&entry, 525, 1024), &[0u8; 499][..]);
}

#[test]
fn header_of_a_directory_has_type_five_and_no_content() {
    let entry = write_header(b"top/", 0o040755, b"").unwrap();
    assert_eq!(entry.len(), 512);
    assert_eq!(field(&entry, 0, 4), b"top/");
    assert_eq!(field(&entry, 100, 108), b"040755\0\0");
    assert_eq!(field(&entry, 124, 136), b"0000000000\0\0");
    assert_eq!(entry[156], b'5');
    assert_eq!(field(&entry, 148, 156), format!("{:06o}\0 ", expected_checksum(&entry)).as_bytes());
}

#[test]
fn header_of_a_long_path_holds_prefix_and_name() {
    let mut path = vec![b'p'; 60];
    path.push(b'/');
    path.extend_from_slice(&[b'q'; 100]);
    let entry = write_header(&path, 0o100644, b"").unwrap();
    assert_eq!(field(&entry, 0, 100), &[b'q'; 100][..]);
    assert_eq!(field(&entry, 100, 107), b"100644\0");
    assert_eq!(field(&entry, 345, 406), &path[..61]);
    assert_eq!(field(&entry, 406, 512), &[0u8; 106][..]);
}

#[test]
fn content_is_padded_to_whole_blocks() {
    assert_eq!(write_header(b"f", 0o100644, &[1u8; 512]).unwrap().len(), 1024);
    assert_eq!(write_header(b"f", 0o100644, &[1u8; 513]).unwrap().len(), 1536);
    assert_eq!(write_header(b"f", 0o100644, &[1u8; 511]).unwrap().len(), 1024);
    assert_eq!(write_header(b"f", 0o100644, &[1u8; 1]).unwrap().len(), 1024);
}

#[test]
fn mode_bits_of_more_than_seven_digits_are_refused() {
    assert_eq!(
        write_header(b"f", 0o10000000, b"").unwrap_err(),
        DecafError::FieldOverflow { value: 0o10000000 }
    );
    assert!(write_header(b"f", 0o7777777, b"").is_ok());
    assert_eq!(
        create_tar(Some("top"), 0o040755, &vec![Listing::file("f".to_string(), u32::MAX, Vec::new())])
            .unwrap_err(),
        DecafError::FieldOverflow { value: u32::MAX as u64 }
    );
}

#[test]
fn archive_has_top_level_directory_entries_and_two_zero_blocks() {
    let archive = create_tar(Some("top"), 0o040755, &sample()).unwrap();
    assert_eq!(archive.len(), 512 + 512 + 1024 + 1024);
    assert_eq!(&archive[..512], &write_header(b"top/", 0o040755, b"").unwrap()[..]);
    assert_eq!(&archive[512..1024], &write_header(b"top/empty", 0o040755, b"").unwrap()[..]);
    assert_eq!(
        &archive[1024..2048],
        &write_header(b"top/file1.txt", 0o100644, b"Hello, world!").unwrap()[..]
    );
    assert_eq!(&archive[2048..], &[0u8; 1024][..]);
}

#[test]
fn directory_without_name_is_dot_slash() {
    let archive = create_tar(None, 0o040755, &sample()).unwrap();
    assert_eq!(&archive[..512], &write_header(b"./", 0o040755, b"").unwrap()[..]);
    assert_eq!(&archive[512..1024], &write_header(b"./empty", 0o040755, b"").unwrap()[..]);
    let bare = create_tar(None, 0o040700, &Vec::new()).unwrap();
    assert_eq!(bare.len(), 512 + 1024);
}

#[test]
fn too_long_path_of_a_listing_fails_the_archive() {
    let listings = vec![
        Listing::file("ok".to_string(), 0o100644, Vec::new()),
        Listing::file("x".repeat(252), 0o100644, Vec::new()),
    ];
    assert_eq!(
        create_tar(Some("top"), 0o040755, &listings).unwrap_err(),
        DecafError::PathTooLong { length: 256 }
    );
    assert_eq!(
        create_tar_gz(Some("top"), 0o040755, &listings).unwrap_err(),
        DecafError::PathTooLong { length: 256 }
    );
}

#[test]
fn gzip_determinism() {
    let a_buf = create_tar_gz(Some("decaf"), 0o040755, &sample()).unwrap();
    let b_buf = create_tar_gz(Some("decaf"), 0o040755, &sample()).unwrap();
    assert_eq!(a_buf, b_buf);
}

#[test]
fn gzip_stream_holds_the_archive_and_a_blank_header() {
    let archive = create_tar(Some("top"), 0o040755, &sample()).unwrap();
    let stream = create_tar_gz(Some("top"), 0o040755, &sample()).unwrap();
    assert_ne!(stream, archive);
    assert_eq!(&stream[0..2], &[0x1f, 0x8b]);
    assert_eq!(&stream[4..8], &[0u8; 4]);
    assert_eq!(stream[9], 0);
    let mut decoder = flate2::read::GzDecoder::new(&stream[..]);
    let mut restored = Vec::new();
    decoder.read_to_end(&mut restored).unwrap();
    assert_eq!(restored, archive);
    let header = decoder.header().unwrap();
    assert_eq!(header.mtime(), 0);
    assert_eq!(header.operating_system(), 0);
    assert_eq!(header.filename(), Some(&b""[..]));
    assert_eq!(header.extra(), Some(&b""[..]));
}

#[test]
fn answer_of_the_compressor_is_passed_on() {
    assert_eq!(accept_stream(Ok(vec![1, 2, 3])), Ok(vec![1, 2, 3]));
    assert_eq!(
        accept_stream(Err("full".to_string())),
        Err(DecafError::Io { message: "full".to_string() })
    );
}

#[test]
fn path_whose_name_leaves_its_field_is_refused() {
    assert_eq!(
        write_header(&[b'a'; 150], 0o100644, b"").unwrap_err(),
        DecafError::PathTooLong { length: 150 }
    );
    assert_eq!(
        write_header(&[b'a'; 101], 0o100644, b"").unwrap_err(),
        DecafError::PathTooLong { length: 101 }
    );
    let mut near = b"a/".to_vec();
    near.extend_from_slice(&[b'b'; 99]);
    assert_eq!(
        write_header(&near, 0o100644, b"").unwrap_err(),
        DecafError::PathTooLong { length: 101 }
    );
    let mut fits = b"d/".to_vec();
    fits.extend_from_slice(&[b'b'; 100]);
    let entry = write_header(&fits, 0o100644, b"").unwrap();
    assert_eq!(field(&entry, 0, 100), &[b'b'; 100][..]);
    assert_eq!(field(&entry, 345, 347), b"d/");
    assert!(write_header(&[b'a'; 100], 0o100644, b"").is_ok());
    assert_eq!(
        create_tar(
            Some("top"),
            0o040755,
            &vec![Listing::file("x".repeat(120), 0o100644, Vec::new())]
        )
        .unwrap_err(),
        DecafError::PathTooLong { length: 124 }
    );
}

#[test]
fn owner_group_and_time_are_zero_in_every_header() {
    let mut long = vec![b'p'; 154];
    long.push(b'/');
    long.extend_from_slice(&[b'q'; 100]);
    for path in [&b"top/file1.txt"[..], &[b'n'; 100][..], &long[..]] {
        let entry = write_header(path, 0o7777777, &[7u8; 700]).unwrap();
        assert_eq!(field(&entry, 108, 124), &[0u8; 16][..]);
        assert_eq!(field(&entry, 136, 148), &[0u8; 12][..]);
        assert_eq!(field(&entry, 500, 512), &[0u8; 12][..]);
    }
}
