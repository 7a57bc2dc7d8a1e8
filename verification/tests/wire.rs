use decaf::decode::read_listings;
use decaf::extract::read_entries;
use decaf::wire::push_bytes;
use decaf::wire::push_u32;
use decaf::wire::push_u64;
use decaf::wire::push_zeros;
use decaf::wire::read_u32;
use decaf::wire::read_u64;
use decaf::wire::same_bytes;
use decaf::wire::store_bytes;
use decaf::wire::store_u64;
use decaf::DecafError;

#[test]
fn numbers_are_stored_little_endian() {
    let mut buffer = vec![0xffu8];
    push_u64(&mut buffer, 0x0102_0304_0506_0708);
    push_u32(&mut buffer, 0o100644);
    assert_eq!(
        buffer,
        vec![0xff, 0x08, 0x07, 0x06, 0x05, 0x04, 0x03, 0x02, 0x01, 0xa4, 0x81, 0x00, 0x00]
    );
    assert_eq!(read_u64(&buffer, 1), 0x0102_0304_0506_0708);
    assert_eq!(read_u32(&buffer, 9), 0o100644);
    assert_eq!(read_u32(&buffer, 1), 0x0506_0708);
}

#[test]
fn stored_numbers_replace_what_was_there() {
    let mut buffer = vec![0xeeu8; 10];
    store_u64(&mut buffer, 1, 0x1122_3344_5566_7788);
    assert_eq!(buffer, vec![0xee, 0x88, 0x77, 0x66, 0x55, 0x44, 0x33, 0x22, 0x11, 0xee]);
    store_bytes(&mut buffer, 8, b"ab");
    assert_eq!(&buffer[7..], &[0x22, b'a', b'b']);
    store_bytes(&mut buffer, 10, b"");
    assert_eq!(buffer.len(), 10);
}

#[test]
fn bytes_and_zeros_are_appended() {
    let mut buffer = b"ab".to_vec();
    push_bytes(&mut buffer, b"cd");
    push_zeros(&mut buffer, 3);
    push_zeros(&mut buffer, 0);
    assert_eq!(buffer, b"abcd\0\0\0".to_vec());
}

#[test]
fn byte_strings_are_equal_if_every_byte_is() {
    assert!(same_bytes(b"", b""));
    assert!(same_bytes(b"abc", b"abc"));
    assert!(!same_bytes(b"abc", b"abd"));
    assert!(!same_bytes(b"abc", b"ab"));
}

#[test]
fn input_without_room_for_a_table_has_no_records() {
    let short = [0u8; 39];
    let bundles: Vec<Vec<u8>> = Vec::new();
    assert_eq!(read_listings(&short, &bundles, 0).unwrap().len(), 0);
    assert_eq!(read_listings(&short, &bundles, 1).unwrap_err(), DecafError::Malformed);
    assert_eq!(read_entries(&short, &bundles, 0).unwrap().len(), 0);
    assert_eq!(read_entries(&short, &bundles, 7).unwrap_err(), DecafError::Malformed);
    assert_eq!(read_entries(&[0u8; 83], &bundles, 1).unwrap_err(), DecafError::Malformed);
}
