//! The bundle wire format: an Oodle-compressed blob sliced into seek chunks.
//!
//! A serialized bundle is, in order: three `u32` sizes, the seek-table scalar
//! fields, two structural 8-byte placeholder fields, the per-chunk compressed
//! lengths, the chunk payloads themselves, and optionally one CRC per chunk.
//! All integers are little-endian.
//!
//! `spec_parse_bundle` and `spec_serialize_bundle` are the mathematical
//! model of that format; `Bundle::from_slice` and `Bundle::to_vec` are
//! proved to match them. The two round-trip lemmas close the loop:
//! `lemma_parse_then_serialize` shows that re-serializing a parsed bundle
//! reproduces the input byte-for-byte, and `lemma_serialize_then_parse`
//! that parsing a serialized well-formed bundle yields it back.

use crate::util::{le32_at, le64_at, read_u32, read_u64};
use crate::Error;
use vstd::bytes::*;
use vstd::prelude::*;
use vstd::slice::{slice_subrange, slice_to_vec};

verus! {

/// Mathematical image of a [`Bundle`].
#[verifier::ext_equal]
pub struct BundleView {
    pub uncompressed_size: u32,
    pub compressed_size: u32,
    pub seek_table_size: u32,
    pub compressor: u32,
    pub seek_chunks_independent: u32,
    pub total_raw_len: u64,
    pub total_comp_len: u64,
    pub num_seek_chunks: u32,
    pub seek_chunk_len: u32,
    pub comp_lens_addr: u64,
    pub crcs_addr: u64,
    pub seek_chunk_comp_lens: Seq<u32>,
    pub chunks: Seq<Seq<u8>>,
    pub raw_crcs: Option<Seq<u32>>,
}

/// Sum of a sequence of chunk lengths.
pub open spec fn sum_lens(lens: Seq<u32>) -> int
    decreases lens.len(),
{
    if lens.len() == 0 {
        0
    } else {
        sum_lens(lens.drop_last()) + lens.last()
    }
}

pub proof fn lemma_sum_lens_nonneg(lens: Seq<u32>)
    ensures
        0 <= sum_lens(lens),
    decreases lens.len(),
{
    if lens.len() > 0 {
        lemma_sum_lens_nonneg(lens.drop_last());
    }
}

/// One step of a running sum: adding element `i` extends the sum of the first
/// `i` lengths.
pub proof fn lemma_sum_lens_take_step(lens: Seq<u32>, i: int)
    requires
        0 <= i < lens.len(),
    ensures
        sum_lens(lens.take(i + 1)) == sum_lens(lens.take(i)) + lens[i],
{
    assert(lens.take(i + 1).drop_last() =~= lens.take(i));
    assert(lens.take(i + 1).last() == lens[i]);
}

/// Every partial sum is bounded by the total.
pub proof fn lemma_sum_lens_take_bound(lens: Seq<u32>, i: int)
    requires
        0 <= i <= lens.len(),
    ensures
        sum_lens(lens.take(i)) <= sum_lens(lens),
        sum_lens(lens.take(i)) >= 0,
    decreases lens.len() - i,
{
    lemma_sum_lens_nonneg(lens.take(i));
    if i == lens.len() {
        assert(lens.take(i) =~= lens);
    } else {
        lemma_sum_lens_take_step(lens, i);
        lemma_sum_lens_take_bound(lens, i + 1);
    }
}

/// The `n` little-endian `u32` values starting at byte offset `off`.
pub open spec fn u32s_at(b: Seq<u8>, off: int, n: nat) -> Seq<u32> {
    Seq::new(n, |i: int| le32_at(b, off + 4 * i))
}

/// Byte offset of chunk `i` when the chunk region starts at `off`.
pub open spec fn chunk_start(off: int, lens: Seq<u32>, i: int) -> int {
    off + sum_lens(lens.take(i))
}

/// The chunk payloads laid out back to back from `off`, sized by `lens`.
pub open spec fn chunks_at(b: Seq<u8>, off: int, lens: Seq<u32>) -> Seq<Seq<u8>> {
    Seq::new(lens.len(), |i: int| b.subrange(chunk_start(off, lens, i), chunk_start(off, lens, i) + lens[i]))
}

/// `n` chunks of `chunk_len` raw bytes each cover `total` bytes, the last
/// chunk holding the (non-empty) remainder.
pub open spec fn chunking_ok(total: int, chunk_len: int, n: int) -> bool {
    if total == 0 {
        n == 0
    } else {
        chunk_len > 0 && n >= 1 && (n - 1) * chunk_len < total <= n * chunk_len
    }
}

/// The invariants a well-formed bundle satisfies (beyond its layout).
pub open spec fn bundle_wire_ok(v: BundleView) -> bool {
    &&& v.total_raw_len == v.uncompressed_size
    &&& v.total_comp_len == v.compressed_size
    &&& sum_lens(v.seek_chunk_comp_lens) == v.compressed_size
    &&& v.num_seek_chunks == v.seek_chunk_comp_lens.len()
    &&& v.chunks.len() == v.seek_chunk_comp_lens.len()
    &&& forall|i: int|
        0 <= i < v.chunks.len() ==> #[trigger] v.chunks[i].len() == v.seek_chunk_comp_lens[i]
    &&& chunking_ok(
        v.uncompressed_size as int,
        v.seek_chunk_len as int,
        v.num_seek_chunks as int,
    )
    &&& match v.raw_crcs {
        Some(c) => c.len() == v.num_seek_chunks && v.num_seek_chunks > 0,
        None => true,
    }
}

/// Parse a byte sequence as a bundle: the header, the per-chunk compressed
/// lengths, the chunks, and (exactly when bytes remain) one CRC per chunk.
/// Yields nothing when the input is short, has trailing bytes, or breaks a
/// well-formedness invariant.
pub open spec fn spec_parse_bundle(b: Seq<u8>) -> Option<BundleView> {
    if b.len() < 60 {
        None
    } else {
        let n = le32_at(b, 36) as int;
        if b.len() < 60 + 4 * n {
            None
        } else {
            let lens = u32s_at(b, 60, n as nat);
            let coff = 60 + 4 * n;
            let csum = sum_lens(lens);
            if b.len() < coff + csum {
                None
            } else {
                let after = coff + csum;
                if after != b.len() && b.len() != after + 4 * n {
                    None
                } else {
                    let v = BundleView {
                        uncompressed_size: le32_at(b, 0),
                        compressed_size: le32_at(b, 4),
                        seek_table_size: le32_at(b, 8),
                        compressor: le32_at(b, 12),
                        seek_chunks_independent: le32_at(b, 16),
                        total_raw_len: le64_at(b, 20),
                        total_comp_len: le64_at(b, 28),
                        num_seek_chunks: le32_at(b, 36),
                        seek_chunk_len: le32_at(b, 40),
                        comp_lens_addr: le64_at(b, 44),
                        crcs_addr: le64_at(b, 52),
                        seek_chunk_comp_lens: lens,
                        chunks: chunks_at(b, coff, lens),
                        raw_crcs: if after == b.len() {
                            None
                        } else {
                            Some(u32s_at(b, after, n as nat))
                        },
                    };
                    if bundle_wire_ok(v) {
                        Some(v)
                    } else {
                        None
                    }
                }
            }
        }
    }
}

/// The little-endian bytes of each value, concatenated in order.
pub open spec fn u32s_bytes(s: Seq<u32>) -> Seq<u8>
    decreases s.len(),
{
    if s.len() == 0 {
        Seq::empty()
    } else {
        u32s_bytes(s.drop_last()) + spec_u32_to_le_bytes(s.last())
    }
}

/// The given byte sequences laid out back to back.
pub open spec fn concat_bytes(s: Seq<Seq<u8>>) -> Seq<u8>
    decreases s.len(),
{
    if s.len() == 0 {
        Seq::empty()
    } else {
        concat_bytes(s.drop_last()) + s.last()
    }
}

pub proof fn lemma_u32s_bytes_step(s: Seq<u32>, i: int)
    requires
        0 <= i < s.len(),
    ensures
        u32s_bytes(s.take(i + 1)) == u32s_bytes(s.take(i)) + spec_u32_to_le_bytes(s[i]),
{
    assert(s.take(i + 1).drop_last() =~= s.take(i));
    assert(s.take(i + 1).last() == s[i]);
}

pub proof fn lemma_concat_bytes_step(s: Seq<Seq<u8>>, i: int)
    requires
        0 <= i < s.len(),
    ensures
        concat_bytes(s.take(i + 1)) == concat_bytes(s.take(i)) + s[i],
{
    assert(s.take(i + 1).drop_last() =~= s.take(i));
    assert(s.take(i + 1).last() == s[i]);
}

/// Reading `n` values and re-encoding them reproduces the bytes read.
pub proof fn lemma_u32s_bytes_of_u32s_at(b: Seq<u8>, off: int, n: nat)
    requires
        0 <= off,
        off + 4 * n <= b.len(),
    ensures
        u32s_bytes(u32s_at(b, off, n)) =~= b.subrange(off, off + 4 * n),
    decreases n,
{
    lemma_auto_spec_u32_to_from_le_bytes();
    if n == 0 {
        assert(u32s_bytes(u32s_at(b, off, n)) =~= b.subrange(off, off));
    } else {
        let s = u32s_at(b, off, n);
        assert(s.drop_last() =~= u32s_at(b, off, (n - 1) as nat));
        lemma_u32s_bytes_of_u32s_at(b, off, (n - 1) as nat);
        assert(s.last() == le32_at(b, off + 4 * (n - 1)));
        assert(b.subrange(off + 4 * (n - 1), off + 4 * n).len() == 4);
        assert(spec_u32_to_le_bytes(s.last()) == b.subrange(off + 4 * (n - 1), off + 4 * n));
        assert(u32s_bytes(s) =~= b.subrange(off, off + 4 * n));
    }
}

/// Concatenating the chunks cut out of `b` reproduces the region they were
/// cut from.
pub proof fn lemma_concat_of_chunks_at(b: Seq<u8>, off: int, lens: Seq<u32>)
    requires
        0 <= off,
        off + sum_lens(lens) <= b.len(),
    ensures
        concat_bytes(chunks_at(b, off, lens)) =~= b.subrange(off, off + sum_lens(lens)),
    decreases lens.len(),
{
    lemma_sum_lens_nonneg(lens);
    if lens.len() == 0 {
        assert(concat_bytes(chunks_at(b, off, lens)) =~= b.subrange(off, off));
    } else {
        let c = chunks_at(b, off, lens);
        let dl = lens.drop_last();
        lemma_sum_lens_nonneg(dl);
        assert forall|i: int| 0 <= i < dl.len() implies #[trigger] chunks_at(b, off, dl)[i]
            == c[i] by {
            assert(dl.take(i) =~= lens.take(i));
        }
        assert(c.drop_last() =~= chunks_at(b, off, dl));
        lemma_concat_of_chunks_at(b, off, dl);
        assert(lens.take(lens.len() - 1) =~= dl);
        assert(c.last() == b.subrange(off + sum_lens(dl), off + sum_lens(dl) + lens.last()));
        assert(concat_bytes(c) =~= b.subrange(off, off + sum_lens(lens)));
    }
}

/// Serializing a parsed bundle reproduces the input byte-for-byte.
pub proof fn lemma_parse_then_serialize(b: Seq<u8>)
    requires
        spec_parse_bundle(b) is Some,
    ensures
        spec_serialize_bundle(spec_parse_bundle(b)->Some_0) == b,
{
    let v = spec_parse_bundle(b)->Some_0;
    let n = le32_at(b, 36) as int;
    let lens = u32s_at(b, 60, n as nat);
    let coff = 60 + 4 * n;
    let csum = sum_lens(lens);
    let after = coff + csum;
    lemma_sum_lens_nonneg(lens);
    lemma_auto_spec_u32_to_from_le_bytes();
    lemma_auto_spec_u64_to_from_le_bytes();
    assert(b.subrange(0, 4).len() == 4);
    assert(b.subrange(4, 8).len() == 4);
    assert(b.subrange(8, 12).len() == 4);
    assert(b.subrange(12, 16).len() == 4);
    assert(b.subrange(16, 20).len() == 4);
    assert(b.subrange(20, 28).len() == 8);
    assert(b.subrange(28, 36).len() == 8);
    assert(b.subrange(36, 40).len() == 4);
    assert(b.subrange(40, 44).len() == 4);
    assert(b.subrange(44, 52).len() == 8);
    assert(b.subrange(52, 60).len() == 8);
    assert(spec_u32_to_le_bytes(v.uncompressed_size) == b.subrange(0, 4));
    assert(spec_u32_to_le_bytes(v.compressed_size) == b.subrange(4, 8));
    assert(spec_u32_to_le_bytes(v.seek_table_size) == b.subrange(8, 12));
    assert(spec_u32_to_le_bytes(v.compressor) == b.subrange(12, 16));
    assert(spec_u32_to_le_bytes(v.seek_chunks_independent) == b.subrange(16, 20));
    assert(spec_u64_to_le_bytes(v.total_raw_len) == b.subrange(20, 28));
    assert(spec_u64_to_le_bytes(v.total_comp_len) == b.subrange(28, 36));
    assert(spec_u32_to_le_bytes(v.num_seek_chunks) == b.subrange(36, 40));
    assert(spec_u32_to_le_bytes(v.seek_chunk_len) == b.subrange(40, 44));
    assert(spec_u64_to_le_bytes(v.comp_lens_addr) == b.subrange(44, 52));
    assert(spec_u64_to_le_bytes(v.crcs_addr) == b.subrange(52, 60));
    assert(spec_header_bytes(v) =~= b.subrange(0, 60));
    lemma_u32s_bytes_of_u32s_at(b, 60, n as nat);
    assert(u32s_bytes(lens) =~= b.subrange(60, coff));
    lemma_concat_of_chunks_at(b, coff, lens);
    assert(concat_bytes(chunks_at(b, coff, lens)) =~= b.subrange(coff, after));
    match v.raw_crcs {
        None => {
            assert(after == b.len());
            assert(spec_serialize_bundle(v) =~= b);
        },
        Some(c) => {
            assert(b.len() == after + 4 * n);
            lemma_u32s_bytes_of_u32s_at(b, after, n as nat);
            assert(u32s_bytes(c) =~= b.subrange(after, after + 4 * n));
            assert(spec_serialize_bundle(v) =~= b);
        },
    }
}

pub proof fn lemma_u32s_bytes_len(s: Seq<u32>)
    ensures
        u32s_bytes(s).len() == 4 * s.len(),
    decreases s.len(),
{
    lemma_auto_spec_u32_to_from_le_bytes();
    if s.len() > 0 {
        lemma_u32s_bytes_len(s.drop_last());
    }
}

/// The `i`th encoded value sits at byte offset `4 * i` of the encoding.
pub proof fn lemma_u32s_bytes_index(s: Seq<u32>, i: int)
    requires
        0 <= i < s.len(),
    ensures
        u32s_bytes(s).subrange(4 * i, 4 * i + 4) == spec_u32_to_le_bytes(s[i]),
    decreases s.len(),
{
    lemma_auto_spec_u32_to_from_le_bytes();
    lemma_u32s_bytes_len(s);
    if i == s.len() - 1 {
        lemma_u32s_bytes_len(s.drop_last());
        assert(u32s_bytes(s).subrange(4 * i, 4 * i + 4) =~= spec_u32_to_le_bytes(s[i]));
    } else {
        lemma_u32s_bytes_index(s.drop_last(), i);
        lemma_u32s_bytes_len(s.drop_last());
        assert(u32s_bytes(s).subrange(4 * i, 4 * i + 4) =~= u32s_bytes(s.drop_last()).subrange(
            4 * i,
            4 * i + 4,
        ));
    }
}

pub proof fn lemma_concat_bytes_len(cs: Seq<Seq<u8>>)
    ensures
        concat_bytes(cs).len() == sum_chunk_lens(cs),
    decreases cs.len(),
{
    if cs.len() > 0 {
        lemma_concat_bytes_len(cs.drop_last());
    }
}

/// The `i`th concatenated piece sits right after the pieces before it.
pub proof fn lemma_concat_bytes_index(cs: Seq<Seq<u8>>, i: int)
    requires
        0 <= i < cs.len(),
    ensures
        concat_bytes(cs).subrange(
            sum_chunk_lens(cs.take(i)),
            sum_chunk_lens(cs.take(i)) + cs[i].len(),
        ) == cs[i],
    decreases cs.len(),
{
    lemma_concat_bytes_len(cs);
    lemma_sum_chunk_lens_take_bound(cs, i);
    lemma_sum_chunk_lens_take_step(cs, i);
    lemma_sum_chunk_lens_take_bound(cs, i + 1);
    if i == cs.len() - 1 {
        lemma_concat_bytes_len(cs.drop_last());
        assert(cs.take(i) =~= cs.drop_last());
        assert(concat_bytes(cs).subrange(
            sum_chunk_lens(cs.take(i)),
            sum_chunk_lens(cs.take(i)) + cs[i].len(),
        ) =~= cs[i]);
    } else {
        lemma_concat_bytes_index(cs.drop_last(), i);
        lemma_concat_bytes_len(cs.drop_last());
        lemma_sum_chunk_lens_take_bound(cs.drop_last(), i + 1);
        assert(cs.drop_last().take(i) =~= cs.take(i));
        assert(cs.drop_last().take(i + 1) =~= cs.take(i + 1));
        assert(sum_chunk_lens(cs.drop_last().take(i)) == sum_chunk_lens(cs.take(i)));
        assert(concat_bytes(cs).subrange(
            sum_chunk_lens(cs.take(i)),
            sum_chunk_lens(cs.take(i)) + cs[i].len(),
        ) =~= concat_bytes(cs.drop_last()).subrange(
            sum_chunk_lens(cs.take(i)),
            sum_chunk_lens(cs.take(i)) + cs[i].len(),
        ));
    }
}

/// The 60 header bytes: the three size fields followed by the seek-table
/// scalars and the two structural placeholder fields.
pub open spec fn spec_header_bytes(v: BundleView) -> Seq<u8> {
    spec_u32_to_le_bytes(v.uncompressed_size) + spec_u32_to_le_bytes(v.compressed_size)
        + spec_u32_to_le_bytes(v.seek_table_size) + spec_u32_to_le_bytes(v.compressor)
        + spec_u32_to_le_bytes(v.seek_chunks_independent) + spec_u64_to_le_bytes(v.total_raw_len)
        + spec_u64_to_le_bytes(v.total_comp_len) + spec_u32_to_le_bytes(v.num_seek_chunks)
        + spec_u32_to_le_bytes(v.seek_chunk_len) + spec_u64_to_le_bytes(v.comp_lens_addr)
        + spec_u64_to_le_bytes(v.crcs_addr)
}

/// Serialize a bundle: header, per-chunk compressed lengths, chunk payloads,
/// then the CRCs when present.
pub open spec fn spec_serialize_bundle(v: BundleView) -> Seq<u8> {
    spec_header_bytes(v) + u32s_bytes(v.seek_chunk_comp_lens) + concat_bytes(v.chunks) + match v
        .raw_crcs {
        Some(c) => u32s_bytes(c),
        None => Seq::<u8>::empty(),
    }
}

/// Parsing the serialized form of a well-formed bundle yields the bundle
/// back unchanged.
pub proof fn lemma_serialize_then_parse(v: BundleView)
    requires
        bundle_wire_ok(v),
    ensures
        spec_parse_bundle(spec_serialize_bundle(v)) == Some(v),
{
    lemma_auto_spec_u32_to_from_le_bytes();
    lemma_auto_spec_u64_to_from_le_bytes();
    let b = spec_serialize_bundle(v);
    let header = spec_header_bytes(v);
    let lens = v.seek_chunk_comp_lens;
    let lensb = u32s_bytes(lens);
    let chunksb = concat_bytes(v.chunks);
    let n = lens.len() as int;
    let csum = sum_lens(lens);
    lemma_u32s_bytes_len(lens);
    lemma_concat_bytes_len(v.chunks);
    lemma_sum_lens_eq_chunk_lens(lens, v.chunks);
    lemma_sum_lens_nonneg(lens);
    assert(header.len() == 60);
    assert(b.subrange(0, 4) =~= spec_u32_to_le_bytes(v.uncompressed_size));
    assert(le32_at(b, 0) == v.uncompressed_size);
    assert(b.subrange(4, 8) =~= spec_u32_to_le_bytes(v.compressed_size));
    assert(le32_at(b, 4) == v.compressed_size);
    assert(b.subrange(8, 12) =~= spec_u32_to_le_bytes(v.seek_table_size));
    assert(le32_at(b, 8) == v.seek_table_size);
    assert(b.subrange(12, 16) =~= spec_u32_to_le_bytes(v.compressor));
    assert(le32_at(b, 12) == v.compressor);
    assert(b.subrange(16, 20) =~= spec_u32_to_le_bytes(v.seek_chunks_independent));
    assert(le32_at(b, 16) == v.seek_chunks_independent);
    assert(b.subrange(20, 28) =~= spec_u64_to_le_bytes(v.total_raw_len));
    assert(le64_at(b, 20) == v.total_raw_len);
    assert(b.subrange(28, 36) =~= spec_u64_to_le_bytes(v.total_comp_len));
    assert(le64_at(b, 28) == v.total_comp_len);
    assert(b.subrange(36, 40) =~= spec_u32_to_le_bytes(v.num_seek_chunks));
    assert(le32_at(b, 36) == v.num_seek_chunks);
    assert(b.subrange(40, 44) =~= spec_u32_to_le_bytes(v.seek_chunk_len));
    assert(le32_at(b, 40) == v.seek_chunk_len);
    assert(b.subrange(44, 52) =~= spec_u64_to_le_bytes(v.comp_lens_addr));
    assert(le64_at(b, 44) == v.comp_lens_addr);
    assert(b.subrange(52, 60) =~= spec_u64_to_le_bytes(v.crcs_addr));
    assert(le64_at(b, 52) == v.crcs_addr);
    assert(v.num_seek_chunks == n);

    assert forall|i: int| 0 <= i < n implies u32s_at(b, 60, n as nat)[i] == lens[i] by {
        lemma_u32s_bytes_index(lens, i);
        assert(b.subrange(60 + 4 * i, 60 + 4 * i + 4) =~= lensb.subrange(4 * i, 4 * i + 4));
    }
    assert(u32s_at(b, 60, n as nat) =~= lens);

    let coff = 60 + 4 * n;
    assert(b.len() >= coff + csum);
    assert forall|i: int| 0 <= i < n implies chunks_at(b, coff, lens)[i] == v.chunks[i] by {
        lemma_concat_bytes_index(v.chunks, i);
        assert(forall|k: int| 0 <= k < i ==> #[trigger] lens.take(i)[k] == v.chunks.take(i)[k].len());
        lemma_sum_lens_eq_chunk_lens(lens.take(i), v.chunks.take(i));
        lemma_sum_lens_take_bound(lens, i);
        lemma_sum_lens_take_step(lens, i);
        lemma_sum_lens_take_bound(lens, i + 1);
        assert(b.subrange(coff + sum_lens(lens.take(i)), coff + sum_lens(lens.take(i)) + lens[i])
            =~= chunksb.subrange(
            sum_chunk_lens(v.chunks.take(i)),
            sum_chunk_lens(v.chunks.take(i)) + v.chunks[i].len(),
        ));
    }
    assert(chunks_at(b, coff, lens) =~= v.chunks);

    let after = coff + csum;
    match v.raw_crcs {
        None => {
            assert(after == b.len());
            assert(spec_parse_bundle(b) == Some(v));
        },
        Some(c) => {
            lemma_u32s_bytes_len(c);
            assert(b.len() == after + 4 * n);
            assert(n > 0);
            assert(after != b.len());
            let crcsb = u32s_bytes(c);
            assert forall|i: int| 0 <= i < n implies u32s_at(b, after, n as nat)[i] == c[i] by {
                lemma_u32s_bytes_index(c, i);
                assert(b.subrange(after + 4 * i, after + 4 * i + 4) =~= crcsb.subrange(
                    4 * i,
                    4 * i + 4,
                ));
            }
            assert(u32s_at(b, after, n as nat) =~= c);
            assert(spec_parse_bundle(b) == Some(v));
        },
    }
}

/// An Oodle-compressed blob sliced into independently decodable seek chunks.
///
/// Immutable after construction; parse it with [`Bundle::from_slice`] or
/// build one from freshly compressed parts with [`Bundle::from_parts`].
#[derive(Debug, Clone)]
pub struct Bundle {
    pub uncompressed_size: u32,
    pub compressed_size: u32,
    pub seek_table_size: u32,
    pub compressor: u32,
    pub seek_chunks_independent: u32,
    pub total_raw_len: u64,
    pub total_comp_len: u64,
    pub num_seek_chunks: u32,
    pub seek_chunk_len: u32,
    pub comp_lens_addr: u64,
    pub crcs_addr: u64,
    pub seek_chunk_comp_lens: Vec<u32>,
    pub chunks: Vec<Vec<u8>>,
    pub raw_crcs: Option<Vec<u32>>,
}

impl View for Bundle {
    type V = BundleView;

    open spec fn view(&self) -> BundleView {
        BundleView {
            uncompressed_size: self.uncompressed_size,
            compressed_size: self.compressed_size,
            seek_table_size: self.seek_table_size,
            compressor: self.compressor,
            seek_chunks_independent: self.seek_chunks_independent,
            total_raw_len: self.total_raw_len,
            total_comp_len: self.total_comp_len,
            num_seek_chunks: self.num_seek_chunks,
            seek_chunk_len: self.seek_chunk_len,
            comp_lens_addr: self.comp_lens_addr,
            crcs_addr: self.crcs_addr,
            seek_chunk_comp_lens: self.seek_chunk_comp_lens@,
            chunks: self.chunks@.map_values(|c: Vec<u8>| c@),
            raw_crcs: match self.raw_crcs {
                Some(c) => Some(c@),
                None => None,
            },
        }
    }
}

impl Bundle {
    /// A bundle is well formed when its redundant size fields agree and its
    /// chunking arithmetic is consistent.
    pub open spec fn wf(&self) -> bool {
        bundle_wire_ok(self@)
    }

    /// Total serialized size: the three leading size fields plus the seek
    /// table region plus the compressed payload.
    pub fn size(&self) -> (r: usize)
        requires
            12 + self.seek_table_size + self.compressed_size <= usize::MAX,
        ensures
            r == 12 + self.seek_table_size + self.compressed_size,
    {
        12 + self.seek_table_size as usize + self.compressed_size as usize
    }

    /// Parse a bundle from its serialized form.
    ///
    /// Returns `InvalidFormat` exactly when the bytes do not parse as a
    /// well-formed bundle.
    pub fn from_slice(value: &[u8]) -> (r: Result<Bundle, Error>)
        ensures
            match r {
                Ok(bundle) => spec_parse_bundle(value@) == Some(bundle@) && bundle.wf(),
                Err(e) => spec_parse_bundle(value@) is None && (e matches Error::InvalidFormat { .. }),
            },
    {
        let vlen: usize = value.len();
        proof {
            assert(value@.len() <= usize::MAX);
        }
        if vlen < 60 {
            return Err(Error::InvalidFormat { reason: "input shorter than the bundle header" });
        }
        let mut off: usize = 0;
        let uncompressed_size = match read_u32(value, &mut off) {
            Ok(v) => v,
            Err(_) => { return Err(Error::InvalidFormat { reason: "header read failed" }) },
        };
        let compressed_size = match read_u32(value, &mut off) {
            Ok(v) => v,
            Err(_) => { return Err(Error::InvalidFormat { reason: "header read failed" }) },
        };
        let seek_table_size = match read_u32(value, &mut off) {
            Ok(v) => v,
            Err(_) => { return Err(Error::InvalidFormat { reason: "header read failed" }) },
        };
        let compressor = match read_u32(value, &mut off) {
            Ok(v) => v,
            Err(_) => { return Err(Error::InvalidFormat { reason: "header read failed" }) },
        };
        let seek_chunks_independent = match read_u32(value, &mut off) {
            Ok(v) => v,
            Err(_) => { return Err(Error::InvalidFormat { reason: "header read failed" }) },
        };
        let total_raw_len = match read_u64(value, &mut off) {
            Ok(v) => v,
            Err(_) => { return Err(Error::InvalidFormat { reason: "header read failed" }) },
        };
        let total_comp_len = match read_u64(value, &mut off) {
            Ok(v) => v,
            Err(_) => { return Err(Error::InvalidFormat { reason: "header read failed" }) },
        };
        let num_seek_chunks = match read_u32(value, &mut off) {
            Ok(v) => v,
            Err(_) => { return Err(Error::InvalidFormat { reason: "header read failed" }) },
        };
        let seek_chunk_len = match read_u32(value, &mut off) {
            Ok(v) => v,
            Err(_) => { return Err(Error::InvalidFormat { reason: "header read failed" }) },
        };
        let comp_lens_addr = match read_u64(value, &mut off) {
            Ok(v) => v,
            Err(_) => { return Err(Error::InvalidFormat { reason: "header read failed" }) },
        };
        let crcs_addr = match read_u64(value, &mut off) {
            Ok(v) => v,
            Err(_) => { return Err(Error::InvalidFormat { reason: "header read failed" }) },
        };
        assert(off == 60);

        let n = num_seek_chunks as usize;
        if (value.len() as u64) < 60u64 + 4u64 * (num_seek_chunks as u64) {
            return Err(Error::InvalidFormat { reason: "input too short for the chunk length table" });
        }
        let ghost gn = num_seek_chunks as int;
        let ghost glens = u32s_at(value@, 60, gn as nat);

        let mut lens: Vec<u32> = Vec::new();
        let mut csum: u128 = 0;
        let mut i: usize = 0;
        while i < n
            invariant
                0 <= i <= n,
                n == gn,
                value@.len() >= 60 + 4 * gn,
                off == 60 + 4 * i,
                lens@.len() == i,
                lens@ =~= glens.take(i as int),
                glens == u32s_at(value@, 60, gn as nat),
                csum == sum_lens(lens@),
                csum <= (i as u128) * 0xFFFF_FFFFu128,
                n <= 0xFFFF_FFFF,
            decreases n - i,
        {
            let v = match read_u32(value, &mut off) {
                Ok(v) => v,
                Err(_) => {
                    proof { assert(false); }
                    return Err(Error::InvalidFormat { reason: "chunk length read failed" });
                },
            };
            let ghost old_lens = lens@;
            proof {
                assert(csum + (v as u128) <= (i + 1) as u128 * 0xFFFF_FFFFu128) by (nonlinear_arith)
                    requires
                        csum <= (i as u128) * 0xFFFF_FFFFu128,
                        v as u128 <= 0xFFFF_FFFFu128,
                        0 <= i,
                ;
            }
            lens.push(v);
            csum = csum + v as u128;
            proof {
                assert(lens@.drop_last() =~= old_lens);
                assert(lens@ =~= glens.take(i + 1));
            }
            i = i + 1;
        }
        proof {
            assert(lens@ =~= glens);
            lemma_sum_lens_nonneg(glens);
        }

        let coff: usize = off;
        let ghost gcsum = sum_lens(glens);
        proof {
            assert(csum <= 0xFFFF_FFFFu128 * 0xFFFF_FFFFu128) by (nonlinear_arith)
                requires
                    csum <= (n as u128) * 0xFFFF_FFFFu128,
                    n <= 0xFFFF_FFFF,
            ;
        }
        if (value.len() as u128) < (coff as u128) + csum {
            return Err(Error::InvalidFormat { reason: "input too short for the chunk payloads" });
        }

        let mut chunks: Vec<Vec<u8>> = Vec::new();
        let mut j: usize = 0;
        while j < n
            invariant
                0 <= j <= n,
                n == gn,
                lens@ == glens,
                glens == u32s_at(value@, 60, gn as nat),
                glens.len() == gn,
                coff == 60 + 4 * gn,
                gcsum == sum_lens(glens),
                value@.len() >= coff + gcsum,
                value@.len() <= usize::MAX,
                off == coff + sum_lens(glens.take(j as int)),
                chunks@.len() == j,
                forall|k: int|
                    0 <= k < j ==> #[trigger] chunks@[k]@ == chunks_at(value@, coff as int, glens)[k],
            decreases n - j,
        {
            let size = lens[j];
            proof {
                lemma_sum_lens_take_step(glens, j as int);
                lemma_sum_lens_take_bound(glens, j + 1);
                lemma_sum_lens_take_bound(glens, j as int);
                assert(off + size == coff + sum_lens(glens.take(j + 1)));
                assert(off + size <= value@.len());
            }
            let chunk = slice_to_vec(slice_subrange(value, off, off + size as usize));
            chunks.push(chunk);
            off = off + size as usize;
            j = j + 1;
        }
        proof {
            assert(glens.take(gn) =~= glens);
            assert(off == coff + gcsum);
        }

        let ghost gafter = coff + gcsum;
        let raw_crcs: Option<Vec<u32>> = if off == value.len() {
            None
        } else {
            if (value.len() as u128) != (off as u128) + 4u128 * (num_seek_chunks as u128) {
                return Err(Error::InvalidFormat { reason: "input neither ends after the chunks nor holds one CRC per chunk" });
            }
            let ghost gcrcs = u32s_at(value@, gafter, gn as nat);
            let crc_base = off;
            let mut crcs: Vec<u32> = Vec::new();
            let mut k: usize = 0;
            while k < n
                invariant
                    0 <= k <= n,
                    n == gn,
                    crc_base == gafter,
                    value@.len() == gafter + 4 * gn,
                    off == crc_base + 4 * k,
                    crcs@.len() == k,
                    crcs@ =~= gcrcs.take(k as int),
                    gcrcs == u32s_at(value@, gafter, gn as nat),
                decreases n - k,
            {
                let v = match read_u32(value, &mut off) {
                    Ok(v) => v,
                    Err(_) => {
                        proof { assert(false); }
                        return Err(Error::InvalidFormat { reason: "CRC read failed" });
                    },
                };
                crcs.push(v);
                proof {
                    assert(crcs@ =~= gcrcs.take(k + 1));
                }
                k = k + 1;
            }
            proof {
                assert(crcs@ =~= gcrcs);
            }
            Some(crcs)
        };

        let bundle = Bundle {
            uncompressed_size,
            compressed_size,
            seek_table_size,
            compressor,
            seek_chunks_independent,
            total_raw_len,
            total_comp_len,
            num_seek_chunks,
            seek_chunk_len,
            comp_lens_addr,
            crcs_addr,
            seek_chunk_comp_lens: lens,
            chunks,
            raw_crcs,
        };

        // The structural layout is now fixed; check the value invariants.
        if total_raw_len != uncompressed_size as u64 {
            return Err(Error::InvalidFormat { reason: "total raw length disagrees with the uncompressed size" });
        }
        if total_comp_len != compressed_size as u64 {
            return Err(Error::InvalidFormat { reason: "total compressed length disagrees with the compressed size" });
        }
        if csum != compressed_size as u128 {
            return Err(Error::InvalidFormat { reason: "compressed size disagrees with the summed chunk lengths" });
        }
        let chunking_good: bool;
        if uncompressed_size == 0 {
            chunking_good = num_seek_chunks == 0;
        } else if seek_chunk_len > 0 && num_seek_chunks >= 1 {
            let nc = num_seek_chunks as u64;
            let cl = seek_chunk_len as u64;
            proof {
                assert((nc as int) * (cl as int) < 0x1_0000_0000_0000_0000) by (nonlinear_arith)
                    requires
                        nc <= 0xFFFF_FFFFu64,
                        cl <= 0xFFFF_FFFFu64,
                ;
                assert((nc - 1) as int * (cl as int) <= (nc as int) * (cl as int))
                    by (nonlinear_arith)
                    requires
                        nc >= 1,
                        cl >= 0,
                ;
            }
            chunking_good = ((nc - 1) * cl < uncompressed_size as u64) && (uncompressed_size as u64
                <= nc * cl);
        } else {
            chunking_good = false;
        }
        if !chunking_good {
            return Err(Error::InvalidFormat { reason: "chunk count disagrees with the chunking arithmetic" });
        }
        proof {
            assert(bundle@.chunks =~= chunks_at(value@, coff as int, glens));
            assert forall|k2: int| 0 <= k2 < glens.len() implies #[trigger] chunks_at(
                value@,
                coff as int,
                glens,
            )[k2].len() == glens[k2] by {
                lemma_sum_lens_take_step(glens, k2);
                lemma_sum_lens_take_bound(glens, k2 + 1);
                lemma_sum_lens_take_bound(glens, k2);
            }
            assert(bundle_wire_ok(bundle@));
            assert(spec_parse_bundle(value@) == Some(bundle@));
        }
        Ok(bundle)
    }

    /// Serialize this bundle back to its wire form.
    pub fn to_vec(&self) -> (r: Vec<u8>)
        ensures
            r@ == spec_serialize_bundle(self@),
    {
        let mut out: Vec<u8> = Vec::new();
        let mut t = u32_to_le_bytes(self.uncompressed_size);
        out.append(&mut t);
        let mut t = u32_to_le_bytes(self.compressed_size);
        out.append(&mut t);
        let mut t = u32_to_le_bytes(self.seek_table_size);
        out.append(&mut t);
        let mut t = u32_to_le_bytes(self.compressor);
        out.append(&mut t);
        let mut t = u32_to_le_bytes(self.seek_chunks_independent);
        out.append(&mut t);
        let mut t = u64_to_le_bytes(self.total_raw_len);
        out.append(&mut t);
        let mut t = u64_to_le_bytes(self.total_comp_len);
        out.append(&mut t);
        let mut t = u32_to_le_bytes(self.num_seek_chunks);
        out.append(&mut t);
        let mut t = u32_to_le_bytes(self.seek_chunk_len);
        out.append(&mut t);
        let mut t = u64_to_le_bytes(self.comp_lens_addr);
        out.append(&mut t);
        let mut t = u64_to_le_bytes(self.crcs_addr);
        out.append(&mut t);
        proof {
            assert(out@ =~= spec_header_bytes(self@));
        }

        let ghost header = spec_header_bytes(self@);
        let ghost glens = self.seek_chunk_comp_lens@;
        let mut i: usize = 0;
        while i < self.seek_chunk_comp_lens.len()
            invariant
                0 <= i <= glens.len(),
                glens == self.seek_chunk_comp_lens@,
                header == spec_header_bytes(self@),
                out@ == header + u32s_bytes(glens.take(i as int)),
            decreases glens.len() - i,
        {
            let mut t = u32_to_le_bytes(self.seek_chunk_comp_lens[i]);
            out.append(&mut t);
            proof {
                lemma_u32s_bytes_step(glens, i as int);
                assert(out@ =~= header + u32s_bytes(glens.take(i + 1)));
            }
            i = i + 1;
        }
        proof {
            assert(glens.take(glens.len() as int) =~= glens);
        }

        let ghost gchunks = self@.chunks;
        let mut j: usize = 0;
        while j < self.chunks.len()
            invariant
                0 <= j <= gchunks.len(),
                gchunks == self@.chunks,
                gchunks.len() == self.chunks@.len(),
                header == spec_header_bytes(self@),
                glens == self.seek_chunk_comp_lens@,
                out@ == header + u32s_bytes(glens) + concat_bytes(gchunks.take(j as int)),
            decreases gchunks.len() - j,
        {
            out.extend_from_slice(self.chunks[j].as_slice());
            proof {
                lemma_concat_bytes_step(gchunks, j as int);
                assert(out@ =~= header + u32s_bytes(glens) + concat_bytes(gchunks.take(j + 1)));
            }
            j = j + 1;
        }
        proof {
            assert(gchunks.take(gchunks.len() as int) =~= gchunks);
        }

        match &self.raw_crcs {
            None => {
                proof {
                    assert(out@ =~= spec_serialize_bundle(self@));
                }
            },
            Some(crcs) => {
                let ghost gcrcs = crcs@;
                let ghost base = header + u32s_bytes(glens) + concat_bytes(gchunks);
                let mut k: usize = 0;
                while k < crcs.len()
                    invariant
                        0 <= k <= gcrcs.len(),
                        gcrcs == crcs@,
                        base == header + u32s_bytes(glens) + concat_bytes(gchunks),
                        out@ == base + u32s_bytes(gcrcs.take(k as int)),
                    decreases gcrcs.len() - k,
                {
                    let mut t = u32_to_le_bytes(crcs[k]);
                    out.append(&mut t);
                    proof {
                        lemma_u32s_bytes_step(gcrcs, k as int);
                        assert(out@ =~= base + u32s_bytes(gcrcs.take(k + 1)));
                    }
                    k = k + 1;
                }
                proof {
                    assert(gcrcs.take(gcrcs.len() as int) =~= gcrcs);
                    assert(out@ =~= spec_serialize_bundle(self@));
                }
            },
        }
        out
    }
}

/// Raw (decompressed) length of seek chunk `i`: the fixed chunk length for
/// all but the last chunk, which holds the remainder.
pub open spec fn spec_chunk_raw_len(total: int, chunk_len: int, n: int, i: int) -> int {
    if i < n - 1 {
        chunk_len
    } else {
        total - (n - 1) * chunk_len
    }
}

/// Total raw bytes covered by the first `k` chunks.
pub open spec fn raw_prefix_len(total: int, chunk_len: int, n: int, k: int) -> int {
    if k < n {
        k * chunk_len
    } else {
        total
    }
}

pub proof fn lemma_raw_prefix_step(total: int, chunk_len: int, n: int, k: int)
    requires
        chunking_ok(total, chunk_len, n),
        0 <= k < n,
    ensures
        raw_prefix_len(total, chunk_len, n, k + 1) == raw_prefix_len(total, chunk_len, n, k)
            + spec_chunk_raw_len(total, chunk_len, n, k),
        spec_chunk_raw_len(total, chunk_len, n, k) > 0,
        spec_chunk_raw_len(total, chunk_len, n, k) <= chunk_len,
        raw_prefix_len(total, chunk_len, n, k) >= 0,
        raw_prefix_len(total, chunk_len, n, k + 1) <= total,
{
    assert((k + 1) * chunk_len == k * chunk_len + chunk_len) by (nonlinear_arith);
    assert(n * chunk_len == (n - 1) * chunk_len + chunk_len) by (nonlinear_arith);
    assert(k <= n - 1 && chunk_len >= 0 ==> k * chunk_len <= (n - 1) * chunk_len)
        by (nonlinear_arith);
    assert(k + 1 <= n - 1 && chunk_len >= 0 ==> (k + 1) * chunk_len <= (n - 1) * chunk_len)
        by (nonlinear_arith);
    assert(k >= 0 && chunk_len >= 0 ==> k * chunk_len >= 0) by (nonlinear_arith);
}

/// Sum of the lengths of a sequence of byte sequences.
pub open spec fn sum_chunk_lens(cs: Seq<Seq<u8>>) -> int
    decreases cs.len(),
{
    if cs.len() == 0 {
        0
    } else {
        sum_chunk_lens(cs.drop_last()) + cs.last().len()
    }
}

pub proof fn lemma_sum_chunk_lens_take_step(cs: Seq<Seq<u8>>, i: int)
    requires
        0 <= i < cs.len(),
    ensures
        sum_chunk_lens(cs.take(i + 1)) == sum_chunk_lens(cs.take(i)) + cs[i].len(),
        sum_chunk_lens(cs.take(i)) >= 0,
    decreases i,
{
    assert(cs.take(i + 1).drop_last() =~= cs.take(i));
    assert(cs.take(i + 1).last() == cs[i]);
    if i > 0 {
        lemma_sum_chunk_lens_take_step(cs, i - 1);
    } else {
        assert(cs.take(0).len() == 0);
    }
}

pub proof fn lemma_sum_chunk_lens_take_bound(cs: Seq<Seq<u8>>, i: int)
    requires
        0 <= i <= cs.len(),
    ensures
        sum_chunk_lens(cs.take(i)) <= sum_chunk_lens(cs),
        sum_chunk_lens(cs.take(i)) >= 0,
    decreases cs.len() - i,
{
    if i == cs.len() {
        assert(cs.take(i) =~= cs);
        if i > 0 {
            lemma_sum_chunk_lens_take_step(cs, i - 1);
        }
    } else {
        lemma_sum_chunk_lens_take_step(cs, i);
        lemma_sum_chunk_lens_take_bound(cs, i + 1);
    }
}

/// Two length sequences that agree pointwise have the same sum.
pub proof fn lemma_sum_lens_eq_chunk_lens(lens: Seq<u32>, cs: Seq<Seq<u8>>)
    requires
        lens.len() == cs.len(),
        forall|i: int| 0 <= i < cs.len() ==> #[trigger] lens[i] == cs[i].len(),
    ensures
        sum_lens(lens) == sum_chunk_lens(cs),
    decreases cs.len(),
{
    if cs.len() > 0 {
        assert(forall|i: int|
            0 <= i < cs.len() - 1 ==> #[trigger] lens.drop_last()[i] == cs.drop_last()[i].len());
        lemma_sum_lens_eq_chunk_lens(lens.drop_last(), cs.drop_last());
    }
}

/// The data a freshly compressed bundle is assembled from is consistent:
/// the compressor's reported totals match the raw length and the summed
/// chunk sizes, and the chunk count matches the block arithmetic.
pub open spec fn parts_consistent(
    raw_len: u32,
    block_len: u32,
    total_raw_len: u64,
    total_comp_len: u64,
    chunks: Seq<Seq<u8>>,
    raw_crcs: Option<Seq<u32>>,
) -> bool {
    &&& total_raw_len == raw_len
    &&& sum_chunk_lens(chunks) == total_comp_len
    &&& total_comp_len <= u32::MAX
    &&& chunks.len() <= u32::MAX
    &&& chunking_ok(raw_len as int, block_len as int, chunks.len() as int)
    &&& match raw_crcs {
        Some(c) => c.len() == chunks.len() && chunks.len() > 0,
        None => true,
    }
}

impl Bundle {
    /// Build a bundle from a freshly compressed payload: the raw length, the
    /// block length the payload was split at, the per-block compressed
    /// chunks, and what the compressor's seek-table builder reported.
    ///
    /// The round-trip arithmetic is checked and any mismatch is
    /// `CompressionInconsistency`; the structural placeholder fields of the
    /// seek table are written as zero.
    pub fn from_parts(
        raw_len: u32,
        block_len: u32,
        compressor: u32,
        seek_chunks_independent: u32,
        seek_table_size: u32,
        total_raw_len: u64,
        total_comp_len: u64,
        chunks: Vec<Vec<u8>>,
        raw_crcs: Option<Vec<u32>>,
    ) -> (r: Result<Bundle, Error>)
        ensures
            match r {
                Ok(b) => {
                    &&& parts_consistent(
                        raw_len,
                        block_len,
                        total_raw_len,
                        total_comp_len,
                        chunks@.map_values(|c: Vec<u8>| c@),
                        match raw_crcs {
                            Some(c) => Some(c@),
                            None => None,
                        },
                    )
                    &&& b.wf()
                    &&& b@.uncompressed_size == raw_len
                    &&& b@.compressed_size == total_comp_len
                    &&& b@.seek_table_size == seek_table_size
                    &&& b@.compressor == compressor
                    &&& b@.seek_chunks_independent == seek_chunks_independent
                    &&& b@.total_raw_len == total_raw_len
                    &&& b@.total_comp_len == total_comp_len
                    &&& b@.num_seek_chunks == chunks@.len()
                    &&& b@.seek_chunk_len == block_len
                    &&& b@.comp_lens_addr == 0
                    &&& b@.crcs_addr == 0
                    &&& b@.chunks == chunks@.map_values(|c: Vec<u8>| c@)
                    &&& b@.raw_crcs == match raw_crcs {
                        Some(c) => Some(c@),
                        None => None::<Seq<u32>>,
                    }
                },
                Err(e) => {
                    &&& (e matches Error::CompressionInconsistency)
                    &&& !parts_consistent(
                        raw_len,
                        block_len,
                        total_raw_len,
                        total_comp_len,
                        chunks@.map_values(|c: Vec<u8>| c@),
                        match raw_crcs {
                            Some(c) => Some(c@),
                            None => None,
                        },
                    )
                },
            },
    {
        let ghost gchunks = chunks@.map_values(|c: Vec<u8>| c@);
        if total_raw_len != raw_len as u64 {
            return Err(Error::CompressionInconsistency);
        }
        if total_comp_len > 0xFFFF_FFFFu64 {
            return Err(Error::CompressionInconsistency);
        }
        let n = chunks.len();
        if (n as u64) > 0xFFFF_FFFFu64 {
            return Err(Error::CompressionInconsistency);
        }

        let mut csum: u128 = 0;
        let mut i: usize = 0;
        while i < n
            invariant
                0 <= i <= n,
                n == chunks@.len(),
                gchunks == chunks@.map_values(|c: Vec<u8>| c@),
                csum == sum_chunk_lens(gchunks.take(i as int)),
                csum <= 0xFFFF_FFFFu128,
            decreases n - i,
        {
            let clen = chunks[i].len();
            csum = csum + clen as u128;
            proof {
                lemma_sum_chunk_lens_take_step(gchunks, i as int);
            }
            if csum > 0xFFFF_FFFFu128 {
                proof {
                    lemma_sum_chunk_lens_take_bound(gchunks, i + 1);
                    assert(sum_chunk_lens(gchunks) > u32::MAX);
                }
                return Err(Error::CompressionInconsistency);
            }
            i = i + 1;
        }
        proof {
            assert(gchunks.take(n as int) =~= gchunks);
        }
        if csum != total_comp_len as u128 {
            return Err(Error::CompressionInconsistency);
        }

        let chunking_good: bool;
        if raw_len == 0 {
            chunking_good = n == 0;
        } else if block_len > 0 && n >= 1 {
            let nc = n as u64;
            let cl = block_len as u64;
            proof {
                assert((nc as int) * (cl as int) < 0x1_0000_0000_0000_0000) by (nonlinear_arith)
                    requires
                        nc <= 0xFFFF_FFFFu64,
                        cl <= 0xFFFF_FFFFu64,
                ;
                assert((nc - 1) as int * (cl as int) <= (nc as int) * (cl as int))
                    by (nonlinear_arith)
                    requires
                        nc >= 1,
                        cl >= 0,
                ;
            }
            chunking_good = ((nc - 1) * cl < raw_len as u64) && (raw_len as u64 <= nc * cl);
        } else {
            chunking_good = false;
        }
        if !chunking_good {
            return Err(Error::CompressionInconsistency);
        }

        let crcs_good: bool = match &raw_crcs {
            Some(c) => c.len() == n && n > 0,
            None => true,
        };
        if !crcs_good {
            return Err(Error::CompressionInconsistency);
        }

        let mut lens: Vec<u32> = Vec::new();
        let mut j: usize = 0;
        while j < n
            invariant
                0 <= j <= n,
                n == chunks@.len(),
                gchunks == chunks@.map_values(|c: Vec<u8>| c@),
                sum_chunk_lens(gchunks) <= u32::MAX,
                lens@.len() == j,
                forall|k: int| 0 <= k < j ==> #[trigger] lens@[k] == gchunks[k].len(),
            decreases n - j,
        {
            proof {
                lemma_sum_chunk_lens_take_step(gchunks, j as int);
                lemma_sum_chunk_lens_take_bound(gchunks, j + 1);
                lemma_sum_chunk_lens_take_bound(gchunks, j as int);
            }
            let clen = chunks[j].len();
            lens.push(clen as u32);
            j = j + 1;
        }

        let bundle = Bundle {
            uncompressed_size: raw_len,
            compressed_size: total_comp_len as u32,
            seek_table_size,
            compressor,
            seek_chunks_independent,
            total_raw_len,
            total_comp_len,
            num_seek_chunks: n as u32,
            seek_chunk_len: block_len,
            comp_lens_addr: 0,
            crcs_addr: 0,
            seek_chunk_comp_lens: lens,
            chunks,
            raw_crcs,
        };
        proof {
            lemma_sum_lens_eq_chunk_lens(bundle@.seek_chunk_comp_lens, gchunks);
            assert(bundle_wire_ok(bundle@));
        }
        Ok(bundle)
    }

    /// Raw length of seek chunk `i`, per the seek table's chunking.
    pub fn chunk_raw_len(&self, i: usize) -> (r: usize)
        requires
            self.wf(),
            i < self@.chunks.len(),
        ensures
            r == spec_chunk_raw_len(
                self.uncompressed_size as int,
                self.seek_chunk_len as int,
                self.num_seek_chunks as int,
                i as int,
            ),
            r <= self.seek_chunk_len,
            r > 0,
    {
        let n = self.num_seek_chunks;
        proof {
            lemma_raw_prefix_step(
                self.uncompressed_size as int,
                self.seek_chunk_len as int,
                n as int,
                i as int,
            );
        }
        if (i as u64) < (n as u64) - 1 {
            self.seek_chunk_len as usize
        } else {
            let nc = n as u64;
            let cl = self.seek_chunk_len as u64;
            proof {
                assert((nc - 1) as int * (cl as int) >= 0) by (nonlinear_arith)
                    requires
                        nc >= 1,
                        cl >= 0,
                ;
            }
            ((self.uncompressed_size as u64) - (nc - 1) * cl) as usize
        }
    }

    /// Stitch independently decompressed chunks back into the raw payload.
    ///
    /// Each part must carry exactly the raw length its seek chunk covers;
    /// a count or length mismatch means the decompressor misbehaved and is
    /// reported as `OodleError`. On success the result is the concatenation
    /// of the parts, and its length is exactly `total_raw_len`.
    pub fn assemble_decompressed(&self, parts: &Vec<Vec<u8>>) -> (r: Result<Vec<u8>, Error>)
        requires
            self.wf(),
        ensures
            match r {
                Ok(out) => {
                    &&& parts@.len() == self@.chunks.len()
                    &&& forall|i: int|
                        0 <= i < parts@.len() ==> #[trigger] parts@[i]@.len()
                            == spec_chunk_raw_len(
                            self.uncompressed_size as int,
                            self.seek_chunk_len as int,
                            self.num_seek_chunks as int,
                            i,
                        )
                    &&& out@ == concat_bytes(parts@.map_values(|p: Vec<u8>| p@))
                    &&& out@.len() == self.total_raw_len
                },
                Err(e) => {
                    &&& (e matches Error::OodleError { .. })
                    &&& (parts@.len() != self@.chunks.len() || exists|i: int|
                        0 <= i < parts@.len() && #[trigger] parts@[i]@.len()
                            != spec_chunk_raw_len(
                            self.uncompressed_size as int,
                            self.seek_chunk_len as int,
                            self.num_seek_chunks as int,
                            i,
                        ))
                },
            },
    {
        let ghost total = self.uncompressed_size as int;
        let ghost cl = self.seek_chunk_len as int;
        let ghost gn = self.num_seek_chunks as int;
        let ghost pviews = parts@.map_values(|p: Vec<u8>| p@);
        if parts.len() != self.chunks.len() {
            // The chunk streams diverge where the shorter one ends.
            let divergence = if parts.len() < self.chunks.len() {
                parts.len()
            } else {
                self.chunks.len()
            };
            return Err(Error::OodleError { chunk_index: divergence });
        }
        let n = parts.len();
        let mut out: Vec<u8> = Vec::new();
        let mut i: usize = 0;
        while i < n
            invariant
                0 <= i <= n,
                n == gn,
                self.wf(),
                total == self.uncompressed_size as int,
                cl == self.seek_chunk_len as int,
                gn == self.num_seek_chunks as int,
                parts@.len() == n,
                self@.chunks.len() == n,
                pviews == parts@.map_values(|p: Vec<u8>| p@),
                forall|j: int|
                    0 <= j < i ==> #[trigger] parts@[j]@.len() == spec_chunk_raw_len(
                        total,
                        cl,
                        gn,
                        j,
                    ),
                out@ == concat_bytes(pviews.take(i as int)),
                out@.len() == raw_prefix_len(total, cl, gn, i as int),
            decreases n - i,
        {
            let expect = self.chunk_raw_len(i);
            if parts[i].len() != expect {
                return Err(Error::OodleError { chunk_index: i });
            }
            out.extend_from_slice(parts[i].as_slice());
            proof {
                lemma_concat_bytes_step(pviews, i as int);
                assert(out@ =~= concat_bytes(pviews.take(i + 1)));
                lemma_raw_prefix_step(total, cl, gn, i as int);
            }
            i = i + 1;
        }
        proof {
            assert(pviews.take(gn) =~= pviews);
            if gn == 0 {
                assert(raw_prefix_len(total, cl, gn, 0) == total);
            }
        }
        Ok(out)
    }
}

/// Split a raw payload into blocks of `block_len` bytes, the last block
/// holding the (non-empty) remainder. The blocks concatenate back to the
/// payload, and their count satisfies the seek-table chunking arithmetic.
pub fn split_blocks(data: &[u8], block_len: usize) -> (r: Vec<Vec<u8>>)
    requires
        block_len > 0,
    ensures
        chunking_ok(data@.len() as int, block_len as int, r@.len() as int),
        forall|i: int|
            0 <= i < r@.len() ==> #[trigger] r@[i]@ == data@.subrange(
                i * block_len,
                raw_prefix_len(data@.len() as int, block_len as int, r@.len() as int, i + 1),
            ),
        concat_bytes(r@.map_values(|p: Vec<u8>| p@)) == data@,
{
    let mut out: Vec<Vec<u8>> = Vec::new();
    let mut off: usize = 0;
    let dlen: usize = data.len();
    proof {
        assert(out@.len() == 0);
        assert(0 * block_len == 0);
    }
    while block_len <= dlen - off
        invariant
            block_len > 0,
            dlen == data@.len(),
            off <= data@.len() <= usize::MAX,
            off == out@.len() * block_len,
            forall|i: int|
                0 <= i < out@.len() ==> #[trigger] out@[i]@ == data@.subrange(
                    i * block_len,
                    (i + 1) * block_len,
                ),
        decreases data@.len() - off,
    {
        let ghost k = out@.len() as int;
        let block = slice_to_vec(slice_subrange(data, off, off + block_len));
        out.push(block);
        proof {
            assert((k + 1) * block_len == k * block_len + block_len) by (nonlinear_arith);
        }
        off = off + block_len;
    }
    let ghost full = out@.len() as int;
    proof {
        assert(full * block_len == off);
    }
    if off < dlen {
        let block = slice_to_vec(slice_subrange(data, off, dlen));
        out.push(block);
    }
    let ghost n = out@.len() as int;
    let ghost total = data@.len() as int;
    let ghost bl = block_len as int;
    proof {
        if off < total {
            assert(n == full + 1);
            assert((n - 1) * bl == off);
            assert(n * bl == (n - 1) * bl + bl) by (nonlinear_arith);
            assert(chunking_ok(total, bl, n));
        } else {
            assert(off == total);
            assert(n == full);
            if n == 0 {
                assert(total == 0);
            } else {
                assert((n - 1) * bl == n * bl - bl) by (nonlinear_arith);
                assert(chunking_ok(total, bl, n));
            }
        }
        assert forall|i: int| 0 <= i < n implies #[trigger] out@[i]@ == data@.subrange(
            i * bl,
            raw_prefix_len(total, bl, n, i + 1),
        ) by {
            lemma_raw_prefix_step(total, bl, n, i);
            if i < full {
                assert(out@[i]@ == data@.subrange(i * bl, (i + 1) * bl));
            }
        }
        lemma_blocks_concat(data@, bl, out@.map_values(|p: Vec<u8>| p@), n);
    }
    out
}

/// Decompressing a freshly compressed payload reproduces it. Compression
/// splits the payload into blocks and compresses each independently; when
/// every chunk decompresses back to its own block — the compressor's
/// lossless per-chunk guarantee — reassembling the chunks in order yields
/// exactly the original payload.
pub proof fn lemma_compress_then_decompress(
    data: Seq<u8>,
    block_len: int,
    parts: Seq<Seq<u8>>,
    n: int,
)
    requires
        block_len > 0,
        chunking_ok(data.len() as int, block_len, n),
        parts.len() == n,
        forall|i: int|
            0 <= i < n ==> #[trigger] parts[i] == data.subrange(
                i * block_len,
                raw_prefix_len(data.len() as int, block_len, n, i + 1),
            ),
    ensures
        concat_bytes(parts) == data,
{
    lemma_blocks_concat(data, block_len, parts, n);
}

/// Blocks cut from a payload at the chunking boundaries concatenate back to
/// the payload itself.
pub proof fn lemma_blocks_concat(data: Seq<u8>, bl: int, blocks: Seq<Seq<u8>>, n: int)
    requires
        bl > 0,
        blocks.len() == n,
        chunking_ok(data.len() as int, bl, n),
        forall|i: int|
            0 <= i < n ==> #[trigger] blocks[i] == data.subrange(
                i * bl,
                raw_prefix_len(data.len() as int, bl, n, i + 1),
            ),
    ensures
        concat_bytes(blocks) == data,
{
    let total = data.len() as int;
    lemma_blocks_concat_prefix(data, bl, blocks, n, n);
    assert(blocks.take(n) =~= blocks);
    if n == 0 {
        assert(data =~= Seq::<u8>::empty());
    } else {
        assert(raw_prefix_len(total, bl, n, n) == total);
        assert(concat_bytes(blocks) =~= data);
    }
}

proof fn lemma_blocks_concat_prefix(data: Seq<u8>, bl: int, blocks: Seq<Seq<u8>>, n: int, k: int)
    requires
        bl > 0,
        blocks.len() == n,
        chunking_ok(data.len() as int, bl, n),
        0 <= k <= n,
        forall|i: int|
            0 <= i < n ==> #[trigger] blocks[i] == data.subrange(
                i * bl,
                raw_prefix_len(data.len() as int, bl, n, i + 1),
            ),
    ensures
        concat_bytes(blocks.take(k)) == data.subrange(0, raw_prefix_len(data.len() as int, bl, n, k)),
    decreases k,
{
    let total = data.len() as int;
    if k == 0 {
        assert(concat_bytes(blocks.take(0)) =~= data.subrange(0, 0));
        if n == 0 {
            assert(raw_prefix_len(total, bl, n, 0) == total);
            assert(total == 0);
        } else {
            assert(0 * bl == 0);
            assert(raw_prefix_len(total, bl, n, 0) == 0);
        }
    } else {
        lemma_blocks_concat_prefix(data, bl, blocks, n, k - 1);
        lemma_raw_prefix_step(total, bl, n, k - 1);
        lemma_concat_bytes_step(blocks, k - 1);
        assert(raw_prefix_len(total, bl, n, k - 1) == (k - 1) * bl || k - 1 >= n);
        assert(concat_bytes(blocks.take(k)) =~= data.subrange(0, raw_prefix_len(total, bl, n, k)));
    }
}

} // verus!
