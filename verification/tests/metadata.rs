use bundle::text::read_string_from_utf16;
use bundle::Error;

/// Encode a string as little-endian UTF-16 bytes.
fn utf16_bytes(s: &str) -> Vec<u8> {
    let mut out = Vec::new();
    for unit in s.encode_utf16() {
        out.extend_from_slice(&unit.to_le_bytes());
    }
    out
}

#[test]
fn equipment() {
    let src = utf16_bytes("version 2\r\nextends \"Metadata/Items/Item\"\r\n");
    let text = read_string_from_utf16(&src).unwrap();
    assert_eq!(text, "version 2\r\nextends \"Metadata/Items/Item\"\r\n");
}

#[test]
fn character() {
    let src = utf16_bytes("version 2\r\nextends \"Metadata/Parent\"\r\n");
    let text = read_string_from_utf16(&src).unwrap();
    assert_eq!(text, "version 2\r\nextends \"Metadata/Parent\"\r\n");
}

#[test]
fn character_aoc() {
    let src = utf16_bytes("version 2\r\nabstract\r\n");
    let text = read_string_from_utf16(&src).unwrap();
    assert_eq!(text, "version 2\r\nabstract\r\n");
}

#[test]
fn gravestone_aoc() {
    let src = utf16_bytes("version 2\r\nextends \"nothing\"\r\n");
    let text = read_string_from_utf16(&src).unwrap();
    assert_eq!(text, "version 2\r\nextends \"nothing\"\r\n");
}

#[test]
fn utf16_odd_length_fails() {
    let e = read_string_from_utf16(&[0x41, 0x00, 0x42]).unwrap_err();
    assert!(matches!(e, Error::BadPathEncoding));
}

#[test]
fn utf16_unpaired_surrogate_fails() {
    // 0xD800 alone is an unpaired high surrogate.
    let e = read_string_from_utf16(&[0x00, 0xd8]).unwrap_err();
    assert!(matches!(e, Error::BadPathEncoding));
}

#[test]
fn utf16_non_ascii() {
    let src = utf16_bytes("na\u{00ef}ve \u{2603}");
    let text = read_string_from_utf16(&src).unwrap();
    assert_eq!(text, "na\u{00ef}ve \u{2603}");
}
