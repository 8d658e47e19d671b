use bundle::index::Index;
use bundle::Error;

fn le32(v: u32) -> [u8; 4] {
    v.to_le_bytes()
}

fn le64(v: u64) -> [u8; 8] {
    v.to_le_bytes()
}

/// A serialized nested bundle whose raw payload is `d` bytes (d <= 262144).
fn path_bundle_bytes(d: u32) -> Vec<u8> {
    let chunks: Vec<Vec<u8>> = if d == 0 { vec![] } else { vec![b"xyz".to_vec()] };
    let compressed: u32 = chunks.iter().map(|c| c.len() as u32).sum();
    let n = chunks.len() as u32;
    let mut out = Vec::new();
    out.extend_from_slice(&le32(d));
    out.extend_from_slice(&le32(compressed));
    out.extend_from_slice(&le32(48 + 4 * n));
    out.extend_from_slice(&le32(12));
    out.extend_from_slice(&le32(1));
    out.extend_from_slice(&le64(d as u64));
    out.extend_from_slice(&le64(compressed as u64));
    out.extend_from_slice(&le32(n));
    out.extend_from_slice(&le32(262_144));
    out.extend_from_slice(&le64(0));
    out.extend_from_slice(&le64(0));
    for c in &chunks {
        out.extend_from_slice(&le32(c.len() as u32));
    }
    for c in &chunks {
        out.extend_from_slice(c);
    }
    out
}

fn bundle_record(path: &str, size: u32) -> Vec<u8> {
    let mut out = Vec::new();
    out.extend_from_slice(&le32(path.len() as u32));
    out.extend_from_slice(path.as_bytes());
    out.extend_from_slice(&le32(size));
    out
}

fn file_record(hash: u64, bundle_idx: u32, offset: u32, size: u32) -> Vec<u8> {
    let mut out = Vec::new();
    out.extend_from_slice(&le64(hash));
    out.extend_from_slice(&le32(bundle_idx));
    out.extend_from_slice(&le32(offset));
    out.extend_from_slice(&le32(size));
    out
}

fn path_record(hash: u64, offset: u32, size: u32) -> Vec<u8> {
    let mut out = Vec::new();
    out.extend_from_slice(&le64(hash));
    out.extend_from_slice(&le32(offset));
    out.extend_from_slice(&le32(size));
    out.extend_from_slice(&le32(0));
    out
}

fn sample_index_bytes() -> Vec<u8> {
    let mut out = Vec::new();
    out.extend_from_slice(&le32(2));
    out.extend_from_slice(&bundle_record("art", 100));
    out.extend_from_slice(&bundle_record("meta", 50));
    out.extend_from_slice(&le32(2));
    out.extend_from_slice(&file_record(11, 0, 0, 60));
    out.extend_from_slice(&file_record(22, 1, 60, 40));
    out.extend_from_slice(&le32(1));
    out.extend_from_slice(&path_record(33, 0, 8));
    out.extend_from_slice(&path_bundle_bytes(16));
    out
}

#[test]
fn index_parse_fields() {
    let bytes = sample_index_bytes();
    let index = Index::parse(&bytes).unwrap();
    assert_eq!(index.bundles.len(), 2);
    assert_eq!(index.bundles[0].path(), "art");
    assert_eq!(index.bundles[0].uncompressed_size, 100);
    assert_eq!(index.bundles[0].size(), 4 + 3 + 4);
    assert_eq!(index.files.len(), 2);
    assert_eq!(index.files[1].hash, 22);
    assert_eq!(index.files[1].bundle_idx, 1);
    assert_eq!(index.paths.len(), 1);
    assert_eq!(index.paths[0].size, 8);
    assert_eq!(index.path_bundle.uncompressed_size, 16);
    assert_eq!(index.total_files(), 2);
    assert_eq!(index.total_uncompressed_size(), 100);
}

#[test]
fn index_serialize_roundtrip() {
    // Re-serializing a parsed index reproduces the input byte-for-byte.
    let bytes = sample_index_bytes();
    let index = Index::parse(&bytes).unwrap();
    assert_eq!(index.to_vec(), bytes);
}

#[test]
fn index_zero_tables_parse() {
    let mut bytes = Vec::new();
    bytes.extend_from_slice(&le32(0));
    bytes.extend_from_slice(&le32(0));
    bytes.extend_from_slice(&le32(0));
    bytes.extend_from_slice(&path_bundle_bytes(0));
    let index = Index::parse(&bytes).unwrap();
    assert_eq!(index.total_files(), 0);
    assert_eq!(index.total_uncompressed_size(), 0);
    assert_eq!(index.to_vec(), bytes);
}

#[test]
fn index_bad_bundle_idx_fails() {
    let mut out = Vec::new();
    out.extend_from_slice(&le32(1));
    out.extend_from_slice(&bundle_record("art", 100));
    out.extend_from_slice(&le32(1));
    out.extend_from_slice(&file_record(11, 7, 0, 60)); // bundle 7 does not exist
    out.extend_from_slice(&le32(0));
    out.extend_from_slice(&path_bundle_bytes(0));
    let e = Index::parse(&out).unwrap_err();
    assert!(matches!(e, Error::InvalidFormat { .. }));
}

#[test]
fn index_path_slice_out_of_bounds_fails() {
    let mut out = Vec::new();
    out.extend_from_slice(&le32(0));
    out.extend_from_slice(&le32(0));
    out.extend_from_slice(&le32(1));
    out.extend_from_slice(&path_record(33, 4, 20)); // past the 16-byte payload
    out.extend_from_slice(&path_bundle_bytes(16));
    let e = Index::parse(&out).unwrap_err();
    assert!(matches!(e, Error::InvalidFormat { .. }));
}

#[test]
fn index_bad_record_utf8_fails() {
    let mut out = Vec::new();
    out.extend_from_slice(&le32(1));
    out.extend_from_slice(&le32(2));
    out.extend_from_slice(&[0xff, 0xfe]); // not UTF-8
    out.extend_from_slice(&le32(9));
    out.extend_from_slice(&le32(0));
    out.extend_from_slice(&le32(0));
    out.extend_from_slice(&path_bundle_bytes(0));
    let e = Index::parse(&out).unwrap_err();
    assert!(matches!(e, Error::InvalidFormat { .. }));
}

#[test]
fn index_truncated_fails() {
    let bytes = sample_index_bytes();
    let e = Index::parse(&bytes[..bytes.len() - 30]).unwrap_err();
    assert!(matches!(e, Error::InvalidFormat { .. }));
}
