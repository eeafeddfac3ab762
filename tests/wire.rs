use freq_buffer::wire::{write_i16, write_i32, write_i64, WireError};
use freq_buffer::{read_string, to_hex_string, write_string, ByteReader};

#[test]
fn read_write_string() {
    let src = "0123456789abcdefABCDEF\u{3042}\u{30a2}\u{4e9c}".to_string();
    let mut v = Vec::new();
    write_string(&mut v, &src).unwrap();
    let dst = read_string(&mut ByteReader::new(v)).unwrap();
    assert_eq!(src, dst);
}

#[test]
fn string_frame_exact() {
    let mut v = Vec::new();
    write_string(&mut v, "\u{3042}").unwrap();
    assert_eq!(v, vec![0, 3, 0xe3, 0x81, 0x82]);
}

#[test]
fn string_too_long_is_refused() {
    let long = "a".repeat(65536);
    let mut v = Vec::new();
    assert_eq!(write_string(&mut v, &long), Err(WireError::TooLong));
    assert!(v.is_empty());
    assert!(write_string(&mut v, &"a".repeat(65535)).is_ok());
}

#[test]
fn string_bad_utf8_is_refused() {
    let r = read_string(&mut ByteReader::new(vec![0, 2, 0xff, 0xfe]));
    assert_eq!(r, Err(WireError::BadUtf8));
    let r = read_string(&mut ByteReader::new(vec![0, 5, b'a']));
    assert_eq!(r, Err(WireError::Truncated));
}

#[test]
fn integers_big_endian() {
    let mut v = Vec::new();
    write_i16(&mut v, -1);
    write_i32(&mut v, 0x01020304);
    write_i64(&mut v, -2);
    assert_eq!(v, vec![0xff, 0xff, 1, 2, 3, 4, 0xff, 0xff, 0xff, 0xff, 0xff, 0xff, 0xff, 0xfe]);
    let mut r = ByteReader::new(v);
    assert_eq!(r.read_i16(), Ok(-1));
    assert_eq!(r.read_i32(), Ok(0x01020304));
    assert_eq!(r.read_i64(), Ok(-2));
    assert!(r.at_end());
    assert_eq!(r.read_u8(), Err(WireError::Truncated));
}

#[test]
fn hex_upper_two_digits_per_byte() {
    assert_eq!(to_hex_string(&[0x00, 0x0f, 0xa0, 0xff]), "000FA0FF");
    assert_eq!(to_hex_string(&[]), "");
}
