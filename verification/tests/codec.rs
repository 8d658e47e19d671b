use bundle::codec::Bundle;
use bundle::Error;

fn le32(v: u32) -> [u8; 4] {
    v.to_le_bytes()
}

fn le64(v: u64) -> [u8; 8] {
    v.to_le_bytes()
}

/// Serialized bundle with the given raw size, chunk payloads and optional CRCs.
fn bundle_bytes(
    uncompressed: u32,
    chunk_len: u32,
    chunks: &[&[u8]],
    crcs: Option<&[u32]>,
    placeholders: (u64, u64),
) -> Vec<u8> {
    let compressed: u32 = chunks.iter().map(|c| c.len() as u32).sum();
    let n = chunks.len() as u32;
    let seek_table_size = 48 + 4 * n;
    let mut out = Vec::new();
    out.extend_from_slice(&le32(uncompressed));
    out.extend_from_slice(&le32(compressed));
    out.extend_from_slice(&le32(seek_table_size));
    out.extend_from_slice(&le32(12)); // compressor id
    out.extend_from_slice(&le32(1)); // seek chunks independent
    out.extend_from_slice(&le64(uncompressed as u64));
    out.extend_from_slice(&le64(compressed as u64));
    out.extend_from_slice(&le32(n));
    out.extend_from_slice(&le32(chunk_len));
    out.extend_from_slice(&le64(placeholders.0));
    out.extend_from_slice(&le64(placeholders.1));
    for c in chunks {
        out.extend_from_slice(&le32(c.len() as u32));
    }
    for c in chunks {
        out.extend_from_slice(c);
    }
    if let Some(crcs) = crcs {
        for c in crcs {
            out.extend_from_slice(&le32(*c));
        }
    }
    out
}

#[test]
fn parse_roundtrip_multi_chunk() {
    // 10 raw bytes in chunks of 4: three chunks (4, 4, 2 raw bytes each).
    let bytes = bundle_bytes(
        10,
        4,
        &[b"abcdef", b"gh", b"xyz"],
        Some(&[7, 8, 9]),
        (0xdead_beef, 0x1234_5678_9abc_def0),
    );
    let b = Bundle::from_slice(&bytes).unwrap();
    assert_eq!(b.uncompressed_size, 10);
    assert_eq!(b.compressed_size, 11);
    assert_eq!(b.num_seek_chunks, 3);
    assert_eq!(b.seek_chunk_len, 4);
    assert_eq!(b.seek_chunk_comp_lens, vec![6, 2, 3]);
    assert_eq!(b.chunks.len(), 3);
    assert_eq!(b.chunks[0], b"abcdef");
    assert_eq!(b.raw_crcs, Some(vec![7, 8, 9]));
    // The two structural placeholder fields survive a round trip untouched.
    assert_eq!(b.comp_lens_addr, 0xdead_beef);
    assert_eq!(b.to_vec(), bytes);
}

#[test]
fn parse_roundtrip_single_chunk() {
    let bytes = bundle_bytes(3, 16, &[b"zz"], None, (0, 0));
    let b = Bundle::from_slice(&bytes).unwrap();
    assert_eq!(b.num_seek_chunks, 1);
    assert_eq!(b.raw_crcs, None);
    assert_eq!(b.to_vec(), bytes);
}

#[test]
fn parse_roundtrip_empty_payload() {
    let bytes = bundle_bytes(0, 4, &[], None, (0, 0));
    assert_eq!(bytes.len(), 60);
    let b = Bundle::from_slice(&bytes).unwrap();
    assert_eq!(b.uncompressed_size, 0);
    assert_eq!(b.num_seek_chunks, 0);
    assert_eq!(b.to_vec(), bytes);
}

#[test]
fn parse_short_input_fails() {
    let e = Bundle::from_slice(&[1, 2, 3]).unwrap_err();
    assert!(matches!(e, Error::InvalidFormat { .. }));
}

#[test]
fn parse_trailing_garbage_fails() {
    let mut bytes = bundle_bytes(3, 16, &[b"zz"], None, (0, 0));
    bytes.push(0);
    let e = Bundle::from_slice(&bytes).unwrap_err();
    assert!(matches!(e, Error::InvalidFormat { .. }));
}

#[test]
fn parse_size_mismatch_fails() {
    let mut bytes = bundle_bytes(3, 16, &[b"zz"], None, (0, 0));
    // Corrupt the compressed-size field so it disagrees with the chunk sum.
    bytes[4..8].copy_from_slice(&le32(99));
    let e = Bundle::from_slice(&bytes).unwrap_err();
    assert!(matches!(e, Error::InvalidFormat { .. }));
}

#[test]
fn parse_chunking_mismatch_fails() {
    // Raw size 10 with chunk length 4 needs 3 chunks, not 2.
    let mut bytes = bundle_bytes(10, 4, &[b"ab", b"cd"], None, (0, 0));
    let _ = &mut bytes;
    let e = Bundle::from_slice(&bytes).unwrap_err();
    assert!(matches!(e, Error::InvalidFormat { .. }));
}

#[test]
fn bundle_size_formula() {
    let bytes = bundle_bytes(3, 16, &[b"zz"], None, (0, 0));
    let b = Bundle::from_slice(&bytes).unwrap();
    assert_eq!(b.size(), 12 + b.seek_table_size as usize + b.compressed_size as usize);
}

#[test]
fn from_parts_builds_wire_form() {
    let chunks = vec![b"comp1".to_vec(), b"c2".to_vec()];
    let b = Bundle::from_parts(6, 4, 12, 1, 56, 6, 7, chunks, None).unwrap();
    assert_eq!(b.uncompressed_size, 6);
    assert_eq!(b.compressed_size, 7);
    assert_eq!(b.num_seek_chunks, 2);
    assert_eq!(b.seek_chunk_comp_lens, vec![5, 2]);
    assert_eq!(b.comp_lens_addr, 0);
    assert_eq!(b.crcs_addr, 0);
    // What it writes parses back to the same value.
    let again = Bundle::from_slice(&b.to_vec()).unwrap();
    assert_eq!(again.chunks, b.chunks);
    assert_eq!(again.uncompressed_size, 6);
}

#[test]
fn from_parts_total_mismatch_fails() {
    let chunks = vec![b"comp1".to_vec()];
    let e = Bundle::from_parts(6, 8, 12, 1, 52, 6, 99, chunks, None).unwrap_err();
    assert!(matches!(e, Error::CompressionInconsistency));
}

#[test]
fn from_parts_raw_len_mismatch_fails() {
    let chunks = vec![b"comp1".to_vec()];
    let e = Bundle::from_parts(6, 8, 12, 1, 52, 7, 5, chunks, None).unwrap_err();
    assert!(matches!(e, Error::CompressionInconsistency));
}

#[test]
fn assemble_decompressed_concatenates() {
    // Raw size 10 in chunks of 4: parts must be 4, 4 and 2 bytes long.
    let bytes = bundle_bytes(10, 4, &[b"abcdef", b"gh", b"xyz"], None, (0, 0));
    let b = Bundle::from_slice(&bytes).unwrap();
    let parts = vec![b"aaaa".to_vec(), b"bbbb".to_vec(), b"cc".to_vec()];
    let out = b.assemble_decompressed(&parts).unwrap();
    assert_eq!(out.len(), 10);
    assert_eq!(out, b"aaaabbbbcc");
}

#[test]
fn assemble_decompressed_wrong_length_fails() {
    let bytes = bundle_bytes(10, 4, &[b"abcdef", b"gh", b"xyz"], None, (0, 0));
    let b = Bundle::from_slice(&bytes).unwrap();
    let parts = vec![b"aaaa".to_vec(), b"bbb".to_vec(), b"cc".to_vec()];
    let e = b.assemble_decompressed(&parts).unwrap_err();
    assert!(matches!(e, Error::OodleError { chunk_index: 1 }));
}

#[test]
fn chunk_raw_len_last_is_remainder() {
    let bytes = bundle_bytes(10, 4, &[b"abcdef", b"gh", b"xyz"], None, (0, 0));
    let b = Bundle::from_slice(&bytes).unwrap();
    assert_eq!(b.chunk_raw_len(0), 4);
    assert_eq!(b.chunk_raw_len(1), 4);
    assert_eq!(b.chunk_raw_len(2), 2);
}

#[test]
fn split_blocks_concatenates_back() {
    // A deterministic payload of one mebibyte, split and reassembled.
    let data: Vec<u8> = (0..1_048_576u32).map(|i| (i.wrapping_mul(31) >> 3) as u8).collect();
    let blocks = bundle::codec::split_blocks(&data, 262_144);
    assert_eq!(blocks.len(), 4);
    let mut whole = Vec::new();
    for b in &blocks {
        whole.extend_from_slice(b);
    }
    assert_eq!(whole, data);
}

#[test]
fn split_blocks_short_tail() {
    let data = b"abcdefghij";
    let blocks = bundle::codec::split_blocks(data, 4);
    assert_eq!(blocks.len(), 3);
    assert_eq!(blocks[0], b"abcd");
    assert_eq!(blocks[2], b"ij");
}
