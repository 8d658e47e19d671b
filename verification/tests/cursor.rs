use bundle::util::{find_cstring, read_bytes, read_i32, read_i64, read_u32, read_u64};
use bundle::Error;

#[test]
fn read_u32_le_advances() {
    let data = [0x78, 0x56, 0x34, 0x12, 0xff];
    let mut off = 0usize;
    assert_eq!(read_u32(&data, &mut off).unwrap(), 0x1234_5678);
    assert_eq!(off, 4);
}

#[test]
fn read_u32_eof_keeps_offset() {
    let data = [1, 2, 3];
    let mut off = 1usize;
    let e = read_u32(&data, &mut off).unwrap_err();
    assert!(matches!(e, Error::UnexpectedEof));
    assert_eq!(off, 1);
}

#[test]
fn read_u64_le() {
    let data = 0x0102_0304_0506_0708u64.to_le_bytes();
    let mut off = 0usize;
    assert_eq!(read_u64(&data, &mut off).unwrap(), 0x0102_0304_0506_0708);
    assert_eq!(off, 8);
}

#[test]
fn read_i32_negative() {
    let data = (-123i32).to_le_bytes();
    let mut off = 0usize;
    assert_eq!(read_i32(&data, &mut off).unwrap(), -123);
}

#[test]
fn read_i64_negative() {
    let data = (-1_000_000_000_000i64).to_le_bytes();
    let mut off = 0usize;
    assert_eq!(read_i64(&data, &mut off).unwrap(), -1_000_000_000_000);
}

#[test]
fn read_bytes_subslice() {
    let data = [9, 8, 7, 6, 5];
    let mut off = 1usize;
    let got = read_bytes(&data, 3, &mut off).unwrap();
    assert_eq!(got, &[8, 7, 6]);
    assert_eq!(off, 4);
    let e = read_bytes(&data, 2, &mut off).unwrap_err();
    assert!(matches!(e, Error::UnexpectedEof));
}

#[test]
fn find_cstring_reads_to_null() {
    let data = b"dir/name\0rest";
    let mut off = 0usize;
    let s = find_cstring(data, &mut off).unwrap();
    assert_eq!(s, "dir/name");
    assert_eq!(off, 9);
}

#[test]
fn find_cstring_multibyte() {
    let data = "gr\u{00fc}n\0".as_bytes();
    let mut off = 0usize;
    let s = find_cstring(data, &mut off).unwrap();
    assert_eq!(s, "gr\u{00fc}n");
}

#[test]
fn find_cstring_missing_null() {
    let data = b"no terminator";
    let mut off = 0usize;
    let e = find_cstring(data, &mut off).unwrap_err();
    assert!(matches!(e, Error::UnexpectedEof));
    assert_eq!(off, 0);
}

#[test]
fn find_cstring_bad_utf8() {
    let data = [0xff, 0xfe, 0xfd, 0x00];
    let mut off = 0usize;
    let e = find_cstring(&data, &mut off).unwrap_err();
    assert!(matches!(e, Error::BadPathEncoding));
    assert_eq!(off, 0);
}
