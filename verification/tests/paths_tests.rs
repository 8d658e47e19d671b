use bundle::hash::PATH_HASH_SEED;
use bundle::index::Index;
use bundle::paths::decode_path_slice;
use bundle::Error;

fn le32(v: u32) -> [u8; 4] {
    v.to_le_bytes()
}

fn le64(v: u64) -> [u8; 8] {
    v.to_le_bytes()
}

/// Slice that defines the fragment `base/`, switches to emitting, and emits
/// `base/` + `file.txt`.
fn slice_building_then_emit() -> Vec<u8> {
    let mut s = Vec::new();
    s.extend_from_slice(&le32(0)); // start in the building phase
    s.extend_from_slice(&le32(1)); // define fragment: standalone "base/"
    s.extend_from_slice(b"base/\0");
    s.extend_from_slice(&le32(0)); // toggle: emitting phase, fragments kept
    s.extend_from_slice(&le32(1)); // reference fragment 1: "base/" + "file.txt"
    s.extend_from_slice(b"file.txt\0");
    s.extend_from_slice(&le32(0)); // terminator padding, never consumed
    s
}

/// Slice that starts directly in the emitting phase with its leading word.
fn slice_starts_nonzero() -> Vec<u8> {
    let mut s = Vec::new();
    s.extend_from_slice(&le32(1));
    s.extend_from_slice(b"other.txt\0");
    s.extend_from_slice(&le32(0));
    s
}

#[test]
fn decode_building_then_emit() {
    let emitted = decode_path_slice(&slice_building_then_emit()).unwrap();
    assert_eq!(emitted.len(), 1);
    assert_eq!(emitted[0], b"base/file.txt");
}

#[test]
fn decode_starts_in_emit_mode() {
    let emitted = decode_path_slice(&slice_starts_nonzero()).unwrap();
    assert_eq!(emitted.len(), 1);
    assert_eq!(emitted[0], b"other.txt");
}

#[test]
fn decode_standalone_reference_has_no_prefix() {
    // Index 5 names no defined fragment, so the string stands alone.
    let mut s = Vec::new();
    s.extend_from_slice(&le32(5));
    s.extend_from_slice(b"plain\0");
    s.extend_from_slice(&le32(0));
    let emitted = decode_path_slice(&s).unwrap();
    assert_eq!(emitted, vec![b"plain".to_vec()]);
}

#[test]
fn decode_toggle_back_clears_fragments() {
    // Define "a", emit nothing, toggle back to building: fragments clear,
    // so a later reference to slot 1 is the new fragment, not "a".
    let mut s = Vec::new();
    s.extend_from_slice(&le32(0));
    s.extend_from_slice(&le32(1));
    s.extend_from_slice(b"a\0");
    s.extend_from_slice(&le32(0)); // -> emitting
    s.extend_from_slice(&le32(0)); // -> building again, fragments cleared
    s.extend_from_slice(&le32(1));
    s.extend_from_slice(b"b\0");
    s.extend_from_slice(&le32(0)); // -> emitting
    s.extend_from_slice(&le32(1));
    s.extend_from_slice(b"c\0");
    s.extend_from_slice(&le32(0));
    let emitted = decode_path_slice(&s).unwrap();
    assert_eq!(emitted, vec![b"bc".to_vec()]);
}

#[test]
fn decode_too_short_fails() {
    let e = decode_path_slice(&[0, 0]).unwrap_err();
    assert!(matches!(e, Error::BadPathEncoding));
}

#[test]
fn decode_missing_terminator_fails() {
    let mut s = Vec::new();
    s.extend_from_slice(&le32(1));
    s.extend_from_slice(b"never ends");
    let e = decode_path_slice(&s).unwrap_err();
    assert!(matches!(e, Error::BadPathEncoding));
}

#[test]
fn decode_bad_utf8_fails() {
    let mut s = Vec::new();
    s.extend_from_slice(&le32(1));
    s.extend_from_slice(&[0xff, 0xfe, 0x00]);
    s.extend_from_slice(&le32(0));
    let e = decode_path_slice(&s).unwrap_err();
    assert!(matches!(e, Error::BadPathEncoding));
}

/// An index whose dictionary emits `base/file.txt` (bundle 0) and
/// `other.txt` (bundle 1).
fn sample_index_and_dict() -> (Vec<u8>, Vec<u8>) {
    let slice1 = slice_building_then_emit();
    let slice2 = slice_starts_nonzero();
    let mut dict_data = Vec::new();
    dict_data.extend_from_slice(&slice1);
    dict_data.extend_from_slice(&slice2);
    let d = dict_data.len() as u32;

    let h1 = murmurhash64::murmur_hash64a(b"base/file.txt", PATH_HASH_SEED);
    let h2 = murmurhash64::murmur_hash64a(b"other.txt", PATH_HASH_SEED);

    let mut out = Vec::new();
    out.extend_from_slice(&le32(2)); // bundle records
    for path in ["art", "meta"] {
        out.extend_from_slice(&le32(path.len() as u32));
        out.extend_from_slice(path.as_bytes());
        out.extend_from_slice(&le32(10));
    }
    out.extend_from_slice(&le32(2)); // file records
    out.extend_from_slice(&le64(h1));
    out.extend_from_slice(&le32(0));
    out.extend_from_slice(&le32(0));
    out.extend_from_slice(&le32(4));
    out.extend_from_slice(&le64(h2));
    out.extend_from_slice(&le32(1));
    out.extend_from_slice(&le32(4));
    out.extend_from_slice(&le32(6));
    out.extend_from_slice(&le32(2)); // path records
    out.extend_from_slice(&le64(77));
    out.extend_from_slice(&le32(0));
    out.extend_from_slice(&le32(slice1.len() as u32));
    out.extend_from_slice(&le32(0));
    out.extend_from_slice(&le64(78));
    out.extend_from_slice(&le32(slice1.len() as u32));
    out.extend_from_slice(&le32(slice2.len() as u32));
    out.extend_from_slice(&le32(0));
    // Nested path bundle with a raw payload of exactly `d` bytes.
    out.extend_from_slice(&le32(d));
    out.extend_from_slice(&le32(3));
    out.extend_from_slice(&le32(52));
    out.extend_from_slice(&le32(12));
    out.extend_from_slice(&le32(1));
    out.extend_from_slice(&le64(d as u64));
    out.extend_from_slice(&le64(3));
    out.extend_from_slice(&le32(1));
    out.extend_from_slice(&le32(262_144));
    out.extend_from_slice(&le64(0));
    out.extend_from_slice(&le64(0));
    out.extend_from_slice(&le32(3));
    out.extend_from_slice(b"xyz");
    (out, dict_data)
}

#[test]
fn build_paths_joins_on_hash() {
    let (index_bytes, dict_data) = sample_index_and_dict();
    let index = Index::parse(&index_bytes).unwrap();
    let dict = index.build_paths(&dict_data).unwrap();
    assert_eq!(dict.len(), 2);
    assert_eq!(dict[0].len(), 1);
    assert_eq!(dict[0][0].0, b"base/file.txt");
    assert_eq!(dict[0][0].1, 0);
    assert_eq!(dict[1].len(), 1);
    assert_eq!(dict[1][0].0, b"other.txt");
    assert_eq!(dict[1][0].1, 1);
    // Every joined path re-hashes to its file record's hash.
    for (b, bucket) in dict.iter().enumerate() {
        for (path, fi) in bucket {
            let h = murmurhash64::murmur_hash64a(path, PATH_HASH_SEED);
            assert_eq!(index.files[*fi].hash, h);
            assert_eq!(index.files[*fi].bundle_idx as usize, b);
        }
    }
}

#[test]
fn build_paths_skips_unknown_hashes() {
    let (index_bytes, dict_data) = sample_index_and_dict();
    let mut index = Index::parse(&index_bytes).unwrap();
    // Break the first file's hash: its path no longer joins to anything.
    index.files[0].hash ^= 1;
    let dict = index.build_paths(&dict_data).unwrap();
    assert_eq!(dict[0].len(), 0);
    assert_eq!(dict[1].len(), 1);
}

#[test]
fn build_paths_last_record_wins_on_collision() {
    let (index_bytes, dict_data) = sample_index_and_dict();
    let mut index = Index::parse(&index_bytes).unwrap();
    // Give both file records the hash of "other.txt": the later one wins.
    index.files[0].hash = index.files[1].hash;
    let dict = index.build_paths(&dict_data).unwrap();
    assert_eq!(dict[0].len(), 0);
    assert_eq!(dict[1].len(), 1);
    assert_eq!(dict[1][0].1, 1);
}

#[test]
fn build_paths_bad_dictionary_fails() {
    let (index_bytes, mut dict_data) = sample_index_and_dict();
    let index = Index::parse(&index_bytes).unwrap();
    // Corrupt the first slice's fragment text into invalid UTF-8.
    dict_data[8] = 0xff;
    dict_data[9] = 0xfe;
    let e = index.build_paths(&dict_data).unwrap_err();
    assert!(matches!(e, Error::BadPathEncoding));
}
