//! The index payload: the bundle table, the file table, the path table, and
//! the nested path-dictionary bundle that follows them.
//!
//! Layout (little-endian): a `u32` bundle count and that many variable-size
//! bundle records; a `u32` file count and that many 20-byte file records; a
//! `u32` path count and that many 20-byte path records; and the remaining
//! bytes as a complete nested bundle.

use crate::codec::{
    spec_parse_bundle, spec_serialize_bundle, Bundle, BundleView,
};
use crate::util::{le32_at, le64_at, read_u32, read_u64};
use crate::Error;
use vstd::bytes::*;
use vstd::prelude::*;
use vstd::slice::slice_subrange;
use vstd::utf8::{decode_utf8, decode_utf8_encode_utf8, encode_utf8, valid_utf8};

verus! {

/// Locates one named bundle: its relative path (without the `.bundle.bin`
/// suffix) and the raw size of its payload.
#[derive(Debug, Clone)]
pub struct BundleRecord {
    pub path: String,
    pub uncompressed_size: u32,
}

/// Mathematical image of a [`BundleRecord`].
#[verifier::ext_equal]
pub struct BundleRecordView {
    pub path: Seq<char>,
    pub uncompressed_size: u32,
}

impl View for BundleRecord {
    type V = BundleRecordView;

    open spec fn view(&self) -> BundleRecordView {
        BundleRecordView { path: self.path@, uncompressed_size: self.uncompressed_size }
    }
}

/// Locates one file: the hash of its full path, the bundle holding it, and
/// the byte range of its contents within that bundle's raw payload.
#[derive(Debug, Clone, Copy, PartialEq, Eq, Structural)]
pub struct FileRecord {
    pub hash: u64,
    pub bundle_idx: u32,
    pub offset: u32,
    pub size: u32,
}

/// Locates one slice of the path dictionary, keyed by the hash of the
/// directory it describes. `recursive_length` is carried through unchanged;
/// the dictionary walk does not consult it.
#[derive(Debug, Clone, Copy, PartialEq, Eq, Structural)]
pub struct PathRecord {
    pub hash: u64,
    pub offset: u32,
    pub size: u32,
    pub recursive_length: u32,
}

/// The 20-byte file record encoded at byte offset `off`.
pub open spec fn spec_file_record_at(b: Seq<u8>, off: int) -> FileRecord {
    FileRecord {
        hash: le64_at(b, off),
        bundle_idx: le32_at(b, off + 8),
        offset: le32_at(b, off + 12),
        size: le32_at(b, off + 16),
    }
}

/// The 20-byte path record encoded at byte offset `off`.
pub open spec fn spec_path_record_at(b: Seq<u8>, off: int) -> PathRecord {
    PathRecord {
        hash: le64_at(b, off),
        offset: le32_at(b, off + 8),
        size: le32_at(b, off + 12),
        recursive_length: le32_at(b, off + 16),
    }
}

/// Wire form of one file record.
pub open spec fn file_record_bytes(r: FileRecord) -> Seq<u8> {
    spec_u64_to_le_bytes(r.hash) + spec_u32_to_le_bytes(r.bundle_idx) + spec_u32_to_le_bytes(
        r.offset,
    ) + spec_u32_to_le_bytes(r.size)
}

/// Wire form of one path record.
pub open spec fn path_record_bytes(r: PathRecord) -> Seq<u8> {
    spec_u64_to_le_bytes(r.hash) + spec_u32_to_le_bytes(r.offset) + spec_u32_to_le_bytes(r.size)
        + spec_u32_to_le_bytes(r.recursive_length)
}

/// Wire form of one bundle record: path length, UTF-8 path bytes, raw size.
pub open spec fn bundle_record_bytes(r: BundleRecordView) -> Seq<u8> {
    spec_u32_to_le_bytes(encode_utf8(r.path).len() as u32) + encode_utf8(r.path)
        + spec_u32_to_le_bytes(r.uncompressed_size)
}

/// Wire form of a file table, records back to back.
pub open spec fn file_records_bytes(rs: Seq<FileRecord>) -> Seq<u8>
    decreases rs.len(),
{
    if rs.len() == 0 {
        Seq::empty()
    } else {
        file_records_bytes(rs.drop_last()) + file_record_bytes(rs.last())
    }
}

/// Wire form of a path table, records back to back.
pub open spec fn path_records_bytes(rs: Seq<PathRecord>) -> Seq<u8>
    decreases rs.len(),
{
    if rs.len() == 0 {
        Seq::empty()
    } else {
        path_records_bytes(rs.drop_last()) + path_record_bytes(rs.last())
    }
}

/// Wire form of a bundle table, records back to back.
pub open spec fn bundle_records_bytes(rs: Seq<BundleRecordView>) -> Seq<u8>
    decreases rs.len(),
{
    if rs.len() == 0 {
        Seq::empty()
    } else {
        bundle_records_bytes(rs.drop_last()) + bundle_record_bytes(rs.last())
    }
}

pub proof fn lemma_file_records_bytes_step(rs: Seq<FileRecord>, i: int)
    requires
        0 <= i < rs.len(),
    ensures
        file_records_bytes(rs.take(i + 1)) == file_records_bytes(rs.take(i)) + file_record_bytes(
            rs[i],
        ),
{
    assert(rs.take(i + 1).drop_last() =~= rs.take(i));
    assert(rs.take(i + 1).last() == rs[i]);
}

pub proof fn lemma_path_records_bytes_step(rs: Seq<PathRecord>, i: int)
    requires
        0 <= i < rs.len(),
    ensures
        path_records_bytes(rs.take(i + 1)) == path_records_bytes(rs.take(i)) + path_record_bytes(
            rs[i],
        ),
{
    assert(rs.take(i + 1).drop_last() =~= rs.take(i));
    assert(rs.take(i + 1).last() == rs[i]);
}

pub proof fn lemma_bundle_records_bytes_step(rs: Seq<BundleRecordView>, i: int)
    requires
        0 <= i < rs.len(),
    ensures
        bundle_records_bytes(rs.take(i + 1)) == bundle_records_bytes(rs.take(i))
            + bundle_record_bytes(rs[i]),
{
    assert(rs.take(i + 1).drop_last() =~= rs.take(i));
    assert(rs.take(i + 1).last() == rs[i]);
}

/// Parse `n` bundle records starting at `off`; yields the records and the
/// offset just past them.
pub open spec fn spec_parse_brecords(b: Seq<u8>, off: int, n: nat) -> Option<
    (Seq<BundleRecordView>, int),
>
    decreases n,
{
    if n == 0 {
        Some((Seq::empty(), off))
    } else if off < 0 || off + 4 > b.len() {
        None
    } else {
        let plen = le32_at(b, off) as int;
        if off + 8 + plen > b.len() {
            None
        } else {
            let pbytes = b.subrange(off + 4, off + 4 + plen);
            if !valid_utf8(pbytes) {
                None
            } else {
                let rec = BundleRecordView {
                    path: decode_utf8(pbytes),
                    uncompressed_size: le32_at(b, off + 4 + plen),
                };
                match spec_parse_brecords(b, off + 8 + plen, (n - 1) as nat) {
                    None => None,
                    Some((rest, end)) => Some((seq![rec] + rest, end)),
                }
            }
        }
    }
}

/// Prefixing an already-parsed run of records onto a parse of the rest.
pub open spec fn prepend_brecords(
    pre: Seq<BundleRecordView>,
    rest: Option<(Seq<BundleRecordView>, int)>,
) -> Option<(Seq<BundleRecordView>, int)> {
    match rest {
        None => None,
        Some((rs, end)) => Some((pre + rs, end)),
    }
}

/// Mathematical image of an [`Index`].
#[verifier::ext_equal]
pub struct IndexView {
    pub bundles: Seq<BundleRecordView>,
    pub files: Seq<FileRecord>,
    pub paths: Seq<PathRecord>,
    pub path_bundle: BundleView,
}

/// The cross-table invariants of a parsed index: every file record points
/// into the bundle table, and every path record's slice lies within the
/// path-dictionary bundle's raw payload.
pub open spec fn index_tables_ok(v: IndexView) -> bool {
    &&& forall|i: int|
        0 <= i < v.files.len() ==> (#[trigger] v.files[i]).bundle_idx < v.bundles.len()
    &&& forall|i: int|
        0 <= i < v.paths.len() ==> (#[trigger] v.paths[i]).offset + v.paths[i].size
            <= v.path_bundle.uncompressed_size
}

/// Parse an index payload: three counted tables followed by the nested
/// path-dictionary bundle, which must occupy exactly the remaining bytes.
pub open spec fn spec_parse_index(b: Seq<u8>) -> Option<IndexView> {
    if b.len() < 4 {
        None
    } else {
        let bc = le32_at(b, 0) as int;
        match spec_parse_brecords(b, 4, bc as nat) {
            None => None,
            Some((bundles, off1)) => {
                if off1 + 4 > b.len() {
                    None
                } else {
                    let fc = le32_at(b, off1) as int;
                    if off1 + 4 + 20 * fc + 4 > b.len() {
                        None
                    } else {
                        let files = Seq::new(
                            fc as nat,
                            |i: int| spec_file_record_at(b, off1 + 4 + 20 * i),
                        );
                        let off2 = off1 + 4 + 20 * fc;
                        let pc = le32_at(b, off2) as int;
                        if off2 + 4 + 20 * pc > b.len() {
                            None
                        } else {
                            let paths = Seq::new(
                                pc as nat,
                                |i: int| spec_path_record_at(b, off2 + 4 + 20 * i),
                            );
                            let off3 = off2 + 4 + 20 * pc;
                            match spec_parse_bundle(b.subrange(off3, b.len() as int)) {
                                None => None,
                                Some(pb) => {
                                    let v = IndexView { bundles, files, paths, path_bundle: pb };
                                    if index_tables_ok(v) {
                                        Some(v)
                                    } else {
                                        None
                                    }
                                },
                            }
                        }
                    }
                }
            },
        }
    }
}

/// Serialize an index payload.
pub open spec fn spec_serialize_index(v: IndexView) -> Seq<u8> {
    spec_u32_to_le_bytes(v.bundles.len() as u32) + bundle_records_bytes(v.bundles)
        + spec_u32_to_le_bytes(v.files.len() as u32) + file_records_bytes(v.files)
        + spec_u32_to_le_bytes(v.paths.len() as u32) + path_records_bytes(v.paths)
        + spec_serialize_bundle(v.path_bundle)
}

impl BundleRecord {
    /// Serialized size of this record: length field, path bytes, size field.
    pub fn size(&self) -> (r: usize)
        requires
            encode_utf8(self@.path).len() + 8 <= usize::MAX,
        ensures
            r == 8 + encode_utf8(self@.path).len(),
    {
        4 + self.path.as_str().len() + 4
    }

    /// The relative path of the bundle file, without its suffix.
    pub fn path(&self) -> (r: &str)
        ensures
            r@ == self@.path,
    {
        self.path.as_str()
    }
}

/// An index can be written back to the wire only when its counts and path
/// lengths fit their 32-bit fields.
pub open spec fn index_serializable(v: IndexView) -> bool {
    &&& v.bundles.len() <= u32::MAX
    &&& v.files.len() <= u32::MAX
    &&& v.paths.len() <= u32::MAX
    &&& forall|i: int|
        0 <= i < v.bundles.len() ==> #[trigger] encode_utf8(v.bundles[i].path).len() <= u32::MAX
}

/// The decoded directory of an archive: which bundles exist, which files
/// live where, and the records of the prefix-compressed path dictionary,
/// together with the dictionary's own nested bundle.
#[derive(Debug, Clone)]
pub struct Index {
    pub bundles: Vec<BundleRecord>,
    pub files: Vec<FileRecord>,
    pub paths: Vec<PathRecord>,
    pub path_bundle: Bundle,
}

impl View for Index {
    type V = IndexView;

    open spec fn view(&self) -> IndexView {
        IndexView {
            bundles: self.bundles@.map_values(|r: BundleRecord| r@),
            files: self.files@,
            paths: self.paths@,
            path_bundle: self.path_bundle@,
        }
    }
}

impl Index {
    /// An index is well formed when its tables satisfy the cross-table
    /// invariants and its nested bundle is well formed.
    pub open spec fn wf(&self) -> bool {
        index_tables_ok(self@) && self.path_bundle.wf()
    }

    /// Parse an index from the decompressed payload of the index bundle.
    ///
    /// Returns `InvalidFormat` exactly when the bytes do not parse as a
    /// well-formed index.
    pub fn parse(value: &[u8]) -> (r: Result<Index, Error>)
        ensures
            match r {
                Ok(index) => spec_parse_index(value@) == Some(index@) && index.wf(),
                Err(e) => spec_parse_index(value@) is None && (e matches Error::InvalidFormat { .. }),
            },
    {
        let vlen: usize = value.len();
        if vlen < 4 {
            return Err(Error::InvalidFormat { reason: "input shorter than the bundle count" });
        }
        let mut off: usize = 0;
        let bundle_count = match read_u32(value, &mut off) {
            Ok(v) => v,
            Err(_) => { return Err(Error::InvalidFormat { reason: "bundle count read failed" }) },
        };
        let ghost gb = value@;
        let ghost gbc = bundle_count as int;

        let mut bundles: Vec<BundleRecord> = Vec::new();
        let mut i: usize = 0;
        while i < bundle_count as usize
            invariant
                0 <= i <= gbc,
                gbc == bundle_count as int,
                le32_at(gb, 0) == bundle_count,
                gb == value@,
                gb.len() == vlen <= usize::MAX,
                4 <= vlen,
                off <= vlen,
                bundles@.len() == i,
                spec_parse_brecords(gb, 4, gbc as nat) == prepend_brecords(
                    bundles@.map_values(|r: BundleRecord| r@),
                    spec_parse_brecords(gb, off as int, (gbc - i) as nat),
                ),
            decreases gbc - i,
        {
            let ghost pre = bundles@.map_values(|r: BundleRecord| r@);
            let ghost goff = off as int;
            if vlen - off < 4 {
                return Err(Error::InvalidFormat { reason: "input too short for a bundle record header" });
            }
            let plen = match read_u32(value, &mut off) {
                Ok(v) => v,
                Err(_) => { return Err(Error::InvalidFormat { reason: "bundle record length read failed" }) },
            };
            if (vlen as u64) - (off as u64) < (plen as u64) + 4 {
                return Err(Error::InvalidFormat { reason: "input too short for a bundle record" });
            }
            let pbytes = slice_subrange(value, off, off + plen as usize);
            let path = match crate::text::utf8_to_string(pbytes) {
                Some(s) => s,
                None => { return Err(Error::InvalidFormat { reason: "bundle record path is not UTF-8" }) },
            };
            off = off + plen as usize;
            let uncompressed_size = match read_u32(value, &mut off) {
                Ok(v) => v,
                Err(_) => { return Err(Error::InvalidFormat { reason: "bundle record size read failed" }) },
            };
            let rec = BundleRecord { path, uncompressed_size };
            proof {
                let rest = spec_parse_brecords(gb, off as int, (gbc - i - 1) as nat);
                assert(spec_parse_brecords(gb, goff, (gbc - i) as nat) == prepend_brecords(
                    seq![rec@],
                    rest,
                ));
            }
            bundles.push(rec);
            proof {
                assert(bundles@.map_values(|r: BundleRecord| r@) =~= pre + seq![rec@]);
                match spec_parse_brecords(gb, off as int, (gbc - i - 1) as nat) {
                    None => {},
                    Some((rs, end)) => {
                        assert(pre + (seq![rec@] + rs) =~= (pre + seq![rec@]) + rs);
                    },
                }
            }
            i = i + 1;
        }
        let ghost gbundles = bundles@.map_values(|r: BundleRecord| r@);
        proof {
            assert(spec_parse_brecords(gb, off as int, 0) == Some((Seq::<BundleRecordView>::empty(), off as int)));
            assert(gbundles + Seq::<BundleRecordView>::empty() =~= gbundles);
            assert(spec_parse_brecords(gb, 4, gbc as nat) == Some((gbundles, off as int)));
        }
        let ghost goff1 = off as int;

        let file_count = match read_u32(value, &mut off) {
            Ok(v) => v,
            Err(_) => { return Err(Error::InvalidFormat { reason: "file count read failed" }) },
        };
        if ((vlen as u64) - (off as u64)) / 20 < file_count as u64 {
            return Err(Error::InvalidFormat { reason: "input too short for the file table" });
        }
        if (vlen as u64) - (off as u64) - 20 * (file_count as u64) < 4 {
            return Err(Error::InvalidFormat { reason: "input too short for the path count" });
        }
        let ghost gfc = file_count as int;
        let ghost gfbase = off as int;
        let ghost gfiles = Seq::new(gfc as nat, |k: int| spec_file_record_at(gb, gfbase + 20 * k));
        let mut files: Vec<FileRecord> = Vec::new();
        let mut j: usize = 0;
        while j < file_count as usize
            invariant
                0 <= j <= gfc,
                gfc == file_count as int,
                gb == value@,
                gb.len() == vlen <= usize::MAX,
                gfbase + 20 * gfc + 4 <= vlen,
                off == gfbase + 20 * j,
                files@.len() == j,
                gfiles == Seq::new(gfc as nat, |k: int| spec_file_record_at(gb, gfbase + 20 * k)),
                forall|k: int| 0 <= k < j ==> #[trigger] files@[k] == gfiles[k],
            decreases gfc - j,
        {
            let hash = match read_u64(value, &mut off) {
                Ok(v) => v,
                Err(_) => {
                    proof { assert(false); }
                    return Err(Error::InvalidFormat { reason: "file record read failed" });
                },
            };
            let bundle_idx = match read_u32(value, &mut off) {
                Ok(v) => v,
                Err(_) => {
                    proof { assert(false); }
                    return Err(Error::InvalidFormat { reason: "file record read failed" });
                },
            };
            let offset = match read_u32(value, &mut off) {
                Ok(v) => v,
                Err(_) => {
                    proof { assert(false); }
                    return Err(Error::InvalidFormat { reason: "file record read failed" });
                },
            };
            let size = match read_u32(value, &mut off) {
                Ok(v) => v,
                Err(_) => {
                    proof { assert(false); }
                    return Err(Error::InvalidFormat { reason: "file record read failed" });
                },
            };
            files.push(FileRecord { hash, bundle_idx, offset, size });
            j = j + 1;
        }
        proof {
            assert(files@ =~= gfiles);
        }

        let path_count = match read_u32(value, &mut off) {
            Ok(v) => v,
            Err(_) => {
                proof { assert(false); }
                return Err(Error::InvalidFormat { reason: "path count read failed" });
            },
        };
        if ((vlen as u64) - (off as u64)) / 20 < path_count as u64 {
            return Err(Error::InvalidFormat { reason: "input too short for the path table" });
        }
        let ghost gpc = path_count as int;
        let ghost gpbase = off as int;
        let ghost gpaths = Seq::new(gpc as nat, |k: int| spec_path_record_at(gb, gpbase + 20 * k));
        let mut paths: Vec<PathRecord> = Vec::new();
        let mut p: usize = 0;
        while p < path_count as usize
            invariant
                0 <= p <= gpc,
                gpc == path_count as int,
                gb == value@,
                gb.len() == vlen <= usize::MAX,
                gpbase + 20 * gpc <= vlen,
                off == gpbase + 20 * p,
                paths@.len() == p,
                gpaths == Seq::new(gpc as nat, |k: int| spec_path_record_at(gb, gpbase + 20 * k)),
                forall|k: int| 0 <= k < p ==> #[trigger] paths@[k] == gpaths[k],
            decreases gpc - p,
        {
            let hash = match read_u64(value, &mut off) {
                Ok(v) => v,
                Err(_) => {
                    proof { assert(false); }
                    return Err(Error::InvalidFormat { reason: "path record read failed" });
                },
            };
            let offset = match read_u32(value, &mut off) {
                Ok(v) => v,
                Err(_) => {
                    proof { assert(false); }
                    return Err(Error::InvalidFormat { reason: "path record read failed" });
                },
            };
            let size = match read_u32(value, &mut off) {
                Ok(v) => v,
                Err(_) => {
                    proof { assert(false); }
                    return Err(Error::InvalidFormat { reason: "path record read failed" });
                },
            };
            let recursive_length = match read_u32(value, &mut off) {
                Ok(v) => v,
                Err(_) => {
                    proof { assert(false); }
                    return Err(Error::InvalidFormat { reason: "path record read failed" });
                },
            };
            paths.push(PathRecord { hash, offset, size, recursive_length });
            p = p + 1;
        }
        proof {
            assert(paths@ =~= gpaths);
        }

        let rest = slice_subrange(value, off, vlen);
        let path_bundle = match Bundle::from_slice(rest) {
            Ok(b) => b,
            Err(_) => { return Err(Error::InvalidFormat { reason: "nested path bundle is malformed" }) },
        };

        let ghost gcand = IndexView {
            bundles: gbundles,
            files: gfiles,
            paths: gpaths,
            path_bundle: path_bundle@,
        };
        proof {
            assert(spec_parse_index(gb) == (if index_tables_ok(gcand) {
                Some(gcand)
            } else {
                None
            }));
        }

        let bcount = bundles.len();
        let mut f: usize = 0;
        while f < files.len()
            invariant
                0 <= f <= gcand.files.len(),
                gb == value@,
                files@ == gcand.files,
                bcount == gcand.bundles.len(),
                spec_parse_index(gb) == (if index_tables_ok(gcand) {
                    Some(gcand)
                } else {
                    None
                }),
                forall|k: int|
                    0 <= k < f ==> (#[trigger] gcand.files[k]).bundle_idx < gcand.bundles.len(),
            decreases gcand.files.len() - f,
        {
            if !((files[f].bundle_idx as u64) < (bcount as u64)) {
                return Err(Error::InvalidFormat { reason: "file record names a bundle outside the bundle table" });
            }
            f = f + 1;
        }
        let pb_raw = path_bundle.uncompressed_size;
        let mut q: usize = 0;
        while q < paths.len()
            invariant
                0 <= q <= gcand.paths.len(),
                gb == value@,
                paths@ == gcand.paths,
                pb_raw == gcand.path_bundle.uncompressed_size,
                spec_parse_index(gb) == (if index_tables_ok(gcand) {
                    Some(gcand)
                } else {
                    None
                }),
                forall|k: int|
                    0 <= k < q ==> (#[trigger] gcand.paths[k]).offset + gcand.paths[k].size
                        <= gcand.path_bundle.uncompressed_size,
            decreases gcand.paths.len() - q,
        {
            let pr = paths[q];
            if !((pr.offset as u64) + (pr.size as u64) <= (pb_raw as u64)) {
                return Err(Error::InvalidFormat { reason: "path record slice lies outside the path bundle payload" });
            }
            q = q + 1;
        }

        let index = Index { bundles, files, paths, path_bundle };
        proof {
            assert(index@ =~= gcand);
            assert(index_tables_ok(index@));
            assert(spec_parse_index(gb) == Some(index@));
        }
        Ok(index)
    }

    /// Number of files the index describes.
    pub fn total_files(&self) -> (r: usize)
        ensures
            r == self@.files.len(),
    {
        self.files.len()
    }

    /// Sum of the raw sizes of every file in the index.
    pub fn total_uncompressed_size(&self) -> (r: usize)
        requires
            sum_file_sizes(self@.files) <= usize::MAX,
        ensures
            r == sum_file_sizes(self@.files),
    {
        let ghost gfiles = self@.files;
        let n = self.files.len();
        let mut acc: usize = 0;
        let mut i: usize = 0;
        while i < n
            invariant
                0 <= i <= n,
                n == gfiles.len(),
                gfiles == self@.files,
                sum_file_sizes(gfiles) <= usize::MAX,
                acc == sum_file_sizes(gfiles.take(i as int)),
            decreases n - i,
        {
            proof {
                lemma_sum_file_sizes_take_step(gfiles, i as int);
                lemma_sum_file_sizes_take_bound(gfiles, i + 1);
            }
            acc = acc + self.files[i].size as usize;
            i = i + 1;
        }
        proof {
            assert(gfiles.take(n as int) =~= gfiles);
        }
        acc
    }

    /// Serialize the index payload back to its wire form.
    pub fn to_vec(&self) -> (r: Vec<u8>)
        requires
            index_serializable(self@),
        ensures
            r@ == spec_serialize_index(self@),
    {
        let ghost gv = self@;
        let mut out: Vec<u8> = Vec::new();
        let mut t = u32_to_le_bytes(self.bundles.len() as u32);
        out.append(&mut t);
        let ghost gbrecs = gv.bundles;
        let mut i: usize = 0;
        while i < self.bundles.len()
            invariant
                0 <= i <= gbrecs.len(),
                gv == self@,
                gbrecs == gv.bundles,
                index_serializable(gv),
                out@ == spec_u32_to_le_bytes(gbrecs.len() as u32) + bundle_records_bytes(
                    gbrecs.take(i as int),
                ),
            decreases gbrecs.len() - i,
        {
            let rec = &self.bundles[i];
            let pbytes = rec.path.as_str().as_bytes();
            let mut t = u32_to_le_bytes(pbytes.len() as u32);
            out.append(&mut t);
            out.extend_from_slice(pbytes);
            let mut t = u32_to_le_bytes(rec.uncompressed_size);
            out.append(&mut t);
            proof {
                lemma_bundle_records_bytes_step(gbrecs, i as int);
                assert(out@ =~= spec_u32_to_le_bytes(gbrecs.len() as u32) + bundle_records_bytes(
                    gbrecs.take(i + 1),
                ));
            }
            i = i + 1;
        }
        proof {
            assert(gbrecs.take(gbrecs.len() as int) =~= gbrecs);
        }

        let ghost base1 = out@;
        let mut t = u32_to_le_bytes(self.files.len() as u32);
        out.append(&mut t);
        let ghost gfrecs = gv.files;
        let mut j: usize = 0;
        while j < self.files.len()
            invariant
                0 <= j <= gfrecs.len(),
                gv == self@,
                gfrecs == gv.files,
                out@ == base1 + spec_u32_to_le_bytes(gfrecs.len() as u32) + file_records_bytes(
                    gfrecs.take(j as int),
                ),
            decreases gfrecs.len() - j,
        {
            let rec = self.files[j];
            let mut t = u64_to_le_bytes(rec.hash);
            out.append(&mut t);
            let mut t = u32_to_le_bytes(rec.bundle_idx);
            out.append(&mut t);
            let mut t = u32_to_le_bytes(rec.offset);
            out.append(&mut t);
            let mut t = u32_to_le_bytes(rec.size);
            out.append(&mut t);
            proof {
                lemma_file_records_bytes_step(gfrecs, j as int);
                assert(out@ =~= base1 + spec_u32_to_le_bytes(gfrecs.len() as u32)
                    + file_records_bytes(gfrecs.take(j + 1)));
            }
            j = j + 1;
        }
        proof {
            assert(gfrecs.take(gfrecs.len() as int) =~= gfrecs);
        }

        let ghost base2 = out@;
        let mut t = u32_to_le_bytes(self.paths.len() as u32);
        out.append(&mut t);
        let ghost gprecs = gv.paths;
        let mut p: usize = 0;
        while p < self.paths.len()
            invariant
                0 <= p <= gprecs.len(),
                gv == self@,
                gprecs == gv.paths,
                out@ == base2 + spec_u32_to_le_bytes(gprecs.len() as u32) + path_records_bytes(
                    gprecs.take(p as int),
                ),
            decreases gprecs.len() - p,
        {
            let rec = self.paths[p];
            let mut t = u64_to_le_bytes(rec.hash);
            out.append(&mut t);
            let mut t = u32_to_le_bytes(rec.offset);
            out.append(&mut t);
            let mut t = u32_to_le_bytes(rec.size);
            out.append(&mut t);
            let mut t = u32_to_le_bytes(rec.recursive_length);
            out.append(&mut t);
            proof {
                lemma_path_records_bytes_step(gprecs, p as int);
                assert(out@ =~= base2 + spec_u32_to_le_bytes(gprecs.len() as u32)
                    + path_records_bytes(gprecs.take(p + 1)));
            }
            p = p + 1;
        }
        proof {
            assert(gprecs.take(gprecs.len() as int) =~= gprecs);
        }

        let mut pb = self.path_bundle.to_vec();
        out.append(&mut pb);
        proof {
            assert(out@ =~= spec_serialize_index(gv));
        }
        out
    }
}

/// A successful record parse yields exactly `n` records within bounds.
pub proof fn lemma_brecords_shape(b: Seq<u8>, off: int, n: nat)
    requires
        0 <= off <= b.len(),
        spec_parse_brecords(b, off, n) is Some,
    ensures
        spec_parse_brecords(b, off, n)->Some_0.0.len() == n,
        off <= spec_parse_brecords(b, off, n)->Some_0.1 <= b.len(),
    decreases n,
{
    if n > 0 {
        let plen = le32_at(b, off) as int;
        lemma_brecords_shape(b, off + 8 + plen, (n - 1) as nat);
    }
}

/// Serializing a prepended record is the record's bytes followed by the rest.
pub proof fn lemma_brecords_bytes_prepend(rec: BundleRecordView, rest: Seq<BundleRecordView>)
    ensures
        bundle_records_bytes(seq![rec] + rest) == bundle_record_bytes(rec) + bundle_records_bytes(
            rest,
        ),
    decreases rest.len(),
{
    if rest.len() == 0 {
        assert(seq![rec] + rest =~= seq![rec]);
        assert(seq![rec].drop_last() =~= Seq::<BundleRecordView>::empty());
        assert(seq![rec].last() == rec);
        assert(bundle_records_bytes(Seq::<BundleRecordView>::empty()) =~= Seq::<u8>::empty());
        assert(bundle_records_bytes(seq![rec]) == bundle_records_bytes(seq![rec].drop_last())
            + bundle_record_bytes(seq![rec].last()));
        assert(bundle_records_bytes(seq![rec]) =~= bundle_record_bytes(rec));
        assert(bundle_record_bytes(rec) + bundle_records_bytes(rest) =~= bundle_record_bytes(rec));
    } else {
        let all = seq![rec] + rest;
        assert(all.drop_last() =~= seq![rec] + rest.drop_last());
        assert(all.last() == rest.last());
        lemma_brecords_bytes_prepend(rec, rest.drop_last());
        assert(bundle_records_bytes(all) =~= bundle_record_bytes(rec) + bundle_records_bytes(rest));
    }
}

/// Re-serializing parsed bundle records reproduces the bytes they were
/// parsed from.
pub proof fn lemma_brecords_roundtrip(b: Seq<u8>, off: int, n: nat)
    requires
        0 <= off <= b.len(),
        spec_parse_brecords(b, off, n) is Some,
    ensures
        bundle_records_bytes(spec_parse_brecords(b, off, n)->Some_0.0) =~= b.subrange(
            off,
            spec_parse_brecords(b, off, n)->Some_0.1,
        ),
    decreases n,
{
    vstd::bytes::lemma_auto_spec_u32_to_from_le_bytes();
    if n == 0 {
        assert(bundle_records_bytes(Seq::<BundleRecordView>::empty()) =~= b.subrange(off, off));
    } else {
        let plen = le32_at(b, off) as int;
        let pbytes = b.subrange(off + 4, off + 4 + plen);
        let rec = BundleRecordView {
            path: decode_utf8(pbytes),
            uncompressed_size: le32_at(b, off + 4 + plen),
        };
        let off2 = off + 8 + plen;
        let rest = spec_parse_brecords(b, off2, (n - 1) as nat)->Some_0.0;
        let end = spec_parse_brecords(b, off2, (n - 1) as nat)->Some_0.1;
        lemma_brecords_roundtrip(b, off2, (n - 1) as nat);
        lemma_brecords_shape(b, off2, (n - 1) as nat);
        lemma_brecords_bytes_prepend(rec, rest);
        decode_utf8_encode_utf8(pbytes);
        assert(encode_utf8(rec.path) == pbytes);
        assert(pbytes.len() == plen);
        assert(encode_utf8(rec.path).len() as u32 == le32_at(b, off));
        assert(spec_u32_to_le_bytes(le32_at(b, off)) == b.subrange(off, off + 4));
        assert(b.subrange(off + 4 + plen, off + 8 + plen).len() == 4);
        assert(spec_u32_to_le_bytes(rec.uncompressed_size) == b.subrange(
            off + 4 + plen,
            off + 8 + plen,
        ));
        assert(bundle_record_bytes(rec) =~= b.subrange(off, off2));
        assert(bundle_records_bytes(seq![rec] + rest) =~= b.subrange(off, end));
    }
}

/// Re-serializing a parsed file table reproduces its bytes.
pub proof fn lemma_file_records_roundtrip(b: Seq<u8>, off: int, n: nat)
    requires
        0 <= off,
        off + 20 * n <= b.len(),
    ensures
        file_records_bytes(Seq::new(n, |i: int| spec_file_record_at(b, off + 20 * i))) =~= b
            .subrange(off, off + 20 * n),
    decreases n,
{
    vstd::bytes::lemma_auto_spec_u32_to_from_le_bytes();
    vstd::bytes::lemma_auto_spec_u64_to_from_le_bytes();
    let rs = Seq::new(n, |i: int| spec_file_record_at(b, off + 20 * i));
    if n == 0 {
        assert(file_records_bytes(rs) =~= b.subrange(off, off));
    } else {
        let m = (n - 1) as nat;
        assert(rs.drop_last() =~= Seq::new(m, |i: int| spec_file_record_at(b, off + 20 * i)));
        lemma_file_records_roundtrip(b, off, m);
        let base = off + 20 * m;
        let last = rs.last();
        assert(last == spec_file_record_at(b, base));
        assert(b.subrange(base, base + 8).len() == 8);
        assert(spec_u64_to_le_bytes(last.hash) == b.subrange(base, base + 8));
        assert(b.subrange(base + 8, base + 12).len() == 4);
        assert(spec_u32_to_le_bytes(last.bundle_idx) == b.subrange(base + 8, base + 12));
        assert(b.subrange(base + 12, base + 16).len() == 4);
        assert(spec_u32_to_le_bytes(last.offset) == b.subrange(base + 12, base + 16));
        assert(b.subrange(base + 16, base + 20).len() == 4);
        assert(spec_u32_to_le_bytes(last.size) == b.subrange(base + 16, base + 20));
        assert(file_record_bytes(last) =~= b.subrange(base, base + 20));
        assert(file_records_bytes(rs) =~= b.subrange(off, off + 20 * n));
    }
}

/// Re-serializing a parsed path table reproduces its bytes.
pub proof fn lemma_path_records_roundtrip(b: Seq<u8>, off: int, n: nat)
    requires
        0 <= off,
        off + 20 * n <= b.len(),
    ensures
        path_records_bytes(Seq::new(n, |i: int| spec_path_record_at(b, off + 20 * i))) =~= b
            .subrange(off, off + 20 * n),
    decreases n,
{
    vstd::bytes::lemma_auto_spec_u32_to_from_le_bytes();
    vstd::bytes::lemma_auto_spec_u64_to_from_le_bytes();
    let rs = Seq::new(n, |i: int| spec_path_record_at(b, off + 20 * i));
    if n == 0 {
        assert(path_records_bytes(rs) =~= b.subrange(off, off));
    } else {
        let m = (n - 1) as nat;
        assert(rs.drop_last() =~= Seq::new(m, |i: int| spec_path_record_at(b, off + 20 * i)));
        lemma_path_records_roundtrip(b, off, m);
        let base = off + 20 * m;
        let last = rs.last();
        assert(last == spec_path_record_at(b, base));
        assert(b.subrange(base, base + 8).len() == 8);
        assert(spec_u64_to_le_bytes(last.hash) == b.subrange(base, base + 8));
        assert(b.subrange(base + 8, base + 12).len() == 4);
        assert(spec_u32_to_le_bytes(last.offset) == b.subrange(base + 8, base + 12));
        assert(b.subrange(base + 12, base + 16).len() == 4);
        assert(spec_u32_to_le_bytes(last.size) == b.subrange(base + 12, base + 16));
        assert(b.subrange(base + 16, base + 20).len() == 4);
        assert(spec_u32_to_le_bytes(last.recursive_length) == b.subrange(base + 16, base + 20));
        assert(path_record_bytes(last) =~= b.subrange(base, base + 20));
        assert(path_records_bytes(rs) =~= b.subrange(off, off + 20 * n));
    }
}

pub proof fn lemma_file_records_bytes_len(rs: Seq<FileRecord>)
    ensures
        file_records_bytes(rs).len() == 20 * rs.len(),
    decreases rs.len(),
{
    vstd::bytes::lemma_auto_spec_u32_to_from_le_bytes();
    vstd::bytes::lemma_auto_spec_u64_to_from_le_bytes();
    if rs.len() > 0 {
        lemma_file_records_bytes_len(rs.drop_last());
    }
}

pub proof fn lemma_file_records_bytes_index(rs: Seq<FileRecord>, i: int)
    requires
        0 <= i < rs.len(),
    ensures
        file_records_bytes(rs).subrange(20 * i, 20 * i + 20) == file_record_bytes(rs[i]),
    decreases rs.len(),
{
    vstd::bytes::lemma_auto_spec_u32_to_from_le_bytes();
    vstd::bytes::lemma_auto_spec_u64_to_from_le_bytes();
    lemma_file_records_bytes_len(rs);
    lemma_file_records_bytes_len(rs.drop_last());
    if i == rs.len() - 1 {
        assert(file_records_bytes(rs).subrange(20 * i, 20 * i + 20) =~= file_record_bytes(rs[i]));
    } else {
        lemma_file_records_bytes_index(rs.drop_last(), i);
        assert(file_records_bytes(rs).subrange(20 * i, 20 * i + 20) =~= file_records_bytes(
            rs.drop_last(),
        ).subrange(20 * i, 20 * i + 20));
    }
}

/// A file table whose bytes stand at `off` in `b` reads back record by
/// record.
pub proof fn lemma_parse_file_records(b: Seq<u8>, off: int, rs: Seq<FileRecord>)
    requires
        0 <= off,
        off + 20 * rs.len() <= b.len(),
        b.subrange(off, off + 20 * rs.len()) == file_records_bytes(rs),
    ensures
        Seq::new(rs.len(), |i: int| spec_file_record_at(b, off + 20 * i)) =~= rs,
{
    vstd::bytes::lemma_auto_spec_u32_to_from_le_bytes();
    vstd::bytes::lemma_auto_spec_u64_to_from_le_bytes();
    lemma_file_records_bytes_len(rs);
    assert forall|i: int| 0 <= i < rs.len() implies spec_file_record_at(b, off + 20 * i)
        == rs[i] by {
        lemma_file_records_bytes_index(rs, i);
        let base = off + 20 * i;
        let rb = file_record_bytes(rs[i]);
        assert(b.subrange(base, base + 20) =~= rb);
        assert(forall|k: int| 0 <= k < 20 ==> b[base + k] == #[trigger] rb[k]);
        assert(rb.subrange(8, 12) =~= spec_u32_to_le_bytes(rs[i].bundle_idx));
        assert(rb.subrange(12, 16) =~= spec_u32_to_le_bytes(rs[i].offset));
        assert(rb.subrange(16, 20) =~= spec_u32_to_le_bytes(rs[i].size));
        assert(b.subrange(base, base + 8) =~= spec_u64_to_le_bytes(rs[i].hash));
        assert(le64_at(b, base) == rs[i].hash);
        assert(b.subrange(base + 8, base + 12) =~= rb.subrange(8, 12));
        assert(le32_at(b, base + 8) == rs[i].bundle_idx);
        assert(b.subrange(base + 12, base + 16) =~= rb.subrange(12, 16));
        assert(le32_at(b, base + 12) == rs[i].offset);
        assert(b.subrange(base + 16, base + 20) =~= rb.subrange(16, 20));
        assert(le32_at(b, base + 16) == rs[i].size);
    }
}

pub proof fn lemma_path_records_bytes_len(rs: Seq<PathRecord>)
    ensures
        path_records_bytes(rs).len() == 20 * rs.len(),
    decreases rs.len(),
{
    vstd::bytes::lemma_auto_spec_u32_to_from_le_bytes();
    vstd::bytes::lemma_auto_spec_u64_to_from_le_bytes();
    if rs.len() > 0 {
        lemma_path_records_bytes_len(rs.drop_last());
    }
}

pub proof fn lemma_path_records_bytes_index(rs: Seq<PathRecord>, i: int)
    requires
        0 <= i < rs.len(),
    ensures
        path_records_bytes(rs).subrange(20 * i, 20 * i + 20) == path_record_bytes(rs[i]),
    decreases rs.len(),
{
    vstd::bytes::lemma_auto_spec_u32_to_from_le_bytes();
    vstd::bytes::lemma_auto_spec_u64_to_from_le_bytes();
    lemma_path_records_bytes_len(rs);
    lemma_path_records_bytes_len(rs.drop_last());
    if i == rs.len() - 1 {
        assert(path_records_bytes(rs).subrange(20 * i, 20 * i + 20) =~= path_record_bytes(rs[i]));
    } else {
        lemma_path_records_bytes_index(rs.drop_last(), i);
        assert(path_records_bytes(rs).subrange(20 * i, 20 * i + 20) =~= path_records_bytes(
            rs.drop_last(),
        ).subrange(20 * i, 20 * i + 20));
    }
}

/// A path table whose bytes stand at `off` in `b` reads back record by
/// record.
pub proof fn lemma_parse_path_records(b: Seq<u8>, off: int, rs: Seq<PathRecord>)
    requires
        0 <= off,
        off + 20 * rs.len() <= b.len(),
        b.subrange(off, off + 20 * rs.len()) == path_records_bytes(rs),
    ensures
        Seq::new(rs.len(), |i: int| spec_path_record_at(b, off + 20 * i)) =~= rs,
{
    vstd::bytes::lemma_auto_spec_u32_to_from_le_bytes();
    vstd::bytes::lemma_auto_spec_u64_to_from_le_bytes();
    lemma_path_records_bytes_len(rs);
    assert forall|i: int| 0 <= i < rs.len() implies spec_path_record_at(b, off + 20 * i)
        == rs[i] by {
        lemma_path_records_bytes_index(rs, i);
        let base = off + 20 * i;
        let rb = path_record_bytes(rs[i]);
        assert(b.subrange(base, base + 20) =~= rb);
        assert(forall|k: int| 0 <= k < 20 ==> b[base + k] == #[trigger] rb[k]);
        assert(rb.subrange(8, 12) =~= spec_u32_to_le_bytes(rs[i].offset));
        assert(rb.subrange(12, 16) =~= spec_u32_to_le_bytes(rs[i].size));
        assert(rb.subrange(16, 20) =~= spec_u32_to_le_bytes(rs[i].recursive_length));
        assert(b.subrange(base, base + 8) =~= spec_u64_to_le_bytes(rs[i].hash));
        assert(le64_at(b, base) == rs[i].hash);
        assert(b.subrange(base + 8, base + 12) =~= rb.subrange(8, 12));
        assert(le32_at(b, base + 8) == rs[i].offset);
        assert(b.subrange(base + 12, base + 16) =~= rb.subrange(12, 16));
        assert(le32_at(b, base + 12) == rs[i].size);
        assert(b.subrange(base + 16, base + 20) =~= rb.subrange(16, 20));
        assert(le32_at(b, base + 16) == rs[i].recursive_length);
    }
}

/// A bundle table whose bytes stand at `off` in `b` reads back record by
/// record, leaving the cursor right past them.
pub proof fn lemma_parse_bundle_records(b: Seq<u8>, off: int, rs: Seq<BundleRecordView>)
    requires
        0 <= off,
        off + bundle_records_bytes(rs).len() <= b.len(),
        b.subrange(off, off + bundle_records_bytes(rs).len() as int) == bundle_records_bytes(rs),
        forall|i: int| 0 <= i < rs.len() ==> #[trigger] encode_utf8(rs[i].path).len() <= u32::MAX,
    ensures
        spec_parse_brecords(b, off, rs.len() as nat) == Some(
            (rs, off + bundle_records_bytes(rs).len()),
        ),
    decreases rs.len(),
{
    vstd::bytes::lemma_auto_spec_u32_to_from_le_bytes();
    if rs.len() == 0 {
        assert(rs =~= Seq::<BundleRecordView>::empty());
    } else {
        let r0 = rs[0];
        let rest = rs.drop_first();
        assert(rs =~= seq![r0] + rest);
        lemma_brecords_bytes_prepend(r0, rest);
        let rb0 = bundle_record_bytes(r0);
        let plen = encode_utf8(r0.path).len() as int;
        assert(rb0.len() == 8 + plen);
        let total = bundle_records_bytes(rs).len() as int;
        assert(total == rb0.len() + bundle_records_bytes(rest).len());
        assert(b.subrange(off, off + rb0.len()) =~= rb0);
        assert(rb0.subrange(0, 4) =~= spec_u32_to_le_bytes(plen as u32));
        assert(rb0.subrange(4, 4 + plen) =~= encode_utf8(r0.path));
        assert(rb0.subrange(4 + plen, 8 + plen) =~= spec_u32_to_le_bytes(r0.uncompressed_size));
        assert(b.subrange(off, off + 4) =~= rb0.subrange(0, 4));
        assert(le32_at(b, off) == plen as u32);
        assert(b.subrange(off + 4, off + 4 + plen) =~= rb0.subrange(4, 4 + plen));
        vstd::utf8::encode_utf8_valid_utf8(r0.path);
        vstd::utf8::encode_utf8_decode_utf8(r0.path);
        assert(valid_utf8(b.subrange(off + 4, off + 4 + plen)));
        assert(decode_utf8(b.subrange(off + 4, off + 4 + plen)) == r0.path);
        assert(b.subrange(off + 4 + plen, off + 8 + plen) =~= rb0.subrange(4 + plen, 8 + plen));
        assert(le32_at(b, off + 4 + plen) == r0.uncompressed_size);
        let off2 = off + 8 + plen;
        assert((rb0 + bundle_records_bytes(rest)).subrange(rb0.len() as int, total)
            =~= bundle_records_bytes(rest));
        assert(b.subrange(off2, off2 + bundle_records_bytes(rest).len() as int) =~= (rb0
            + bundle_records_bytes(rest)).subrange(rb0.len() as int, total));
        assert(b.subrange(off2, off2 + bundle_records_bytes(rest).len() as int)
            =~= bundle_records_bytes(rest));
        assert(forall|i: int| 0 <= i < rest.len() ==> #[trigger] encode_utf8(rest[i].path).len()
            <= u32::MAX && rest[i] == rs[i + 1]);
        lemma_parse_bundle_records(b, off2, rest);
        assert(spec_parse_brecords(b, off, rs.len() as nat) == Some((rs, off + total)));
    }
}

/// Parsing the serialized form of a well-formed index yields it back
/// unchanged.
pub proof fn lemma_serialize_then_parse_index(v: IndexView)
    requires
        index_tables_ok(v),
        crate::codec::bundle_wire_ok(v.path_bundle),
        index_serializable(v),
    ensures
        spec_parse_index(spec_serialize_index(v)) == Some(v),
{
    vstd::bytes::lemma_auto_spec_u32_to_from_le_bytes();
    vstd::bytes::lemma_auto_spec_u64_to_from_le_bytes();
    let b = spec_serialize_index(v);
    let brb = bundle_records_bytes(v.bundles);
    let frb = file_records_bytes(v.files);
    let prb = path_records_bytes(v.paths);
    let pbb = spec_serialize_bundle(v.path_bundle);
    lemma_file_records_bytes_len(v.files);
    lemma_path_records_bytes_len(v.paths);
    crate::codec::lemma_sum_lens_nonneg(v.path_bundle.seek_chunk_comp_lens);
    assert(b.len() == 4 + brb.len() + 4 + frb.len() + 4 + prb.len() + pbb.len());
    assert(b.subrange(0, 4) =~= spec_u32_to_le_bytes(v.bundles.len() as u32));
    assert(le32_at(b, 0) == v.bundles.len() as u32);
    assert(b.subrange(4, 4 + brb.len() as int) =~= brb);
    lemma_parse_bundle_records(b, 4, v.bundles);
    let off1 = 4 + brb.len() as int;
    assert(b.subrange(off1, off1 + 4) =~= spec_u32_to_le_bytes(v.files.len() as u32));
    assert(le32_at(b, off1) == v.files.len() as u32);
    assert(b.subrange(off1 + 4, off1 + 4 + 20 * v.files.len()) =~= frb);
    lemma_parse_file_records(b, off1 + 4, v.files);
    let off2 = off1 + 4 + 20 * v.files.len();
    assert(b.subrange(off2, off2 + 4) =~= spec_u32_to_le_bytes(v.paths.len() as u32));
    assert(le32_at(b, off2) == v.paths.len() as u32);
    assert(b.subrange(off2 + 4, off2 + 4 + 20 * v.paths.len()) =~= prb);
    lemma_parse_path_records(b, off2 + 4, v.paths);
    let off3 = off2 + 4 + 20 * v.paths.len();
    assert(b.subrange(off3, b.len() as int) =~= pbb);
    crate::codec::lemma_serialize_then_parse(v.path_bundle);
    assert(spec_parse_bundle(b.subrange(off3, b.len() as int)) == Some(v.path_bundle));
    assert(spec_parse_index(b) == Some(v));
}

/// Serializing a parsed index reproduces the input byte-for-byte.
pub proof fn lemma_parse_then_serialize_index(b: Seq<u8>)
    requires
        spec_parse_index(b) is Some,
    ensures
        spec_serialize_index(spec_parse_index(b)->Some_0) == b,
{
    vstd::bytes::lemma_auto_spec_u32_to_from_le_bytes();
    let v = spec_parse_index(b)->Some_0;
    let bc = le32_at(b, 0) as int;
    lemma_brecords_shape(b, 4, bc as nat);
    lemma_brecords_roundtrip(b, 4, bc as nat);
    let off1 = spec_parse_brecords(b, 4, bc as nat)->Some_0.1;
    assert(v.bundles.len() == bc);
    assert(v.bundles.len() as u32 == le32_at(b, 0));
    assert(spec_u32_to_le_bytes(v.bundles.len() as u32) == b.subrange(0, 4));
    assert(bundle_records_bytes(v.bundles) =~= b.subrange(4, off1));
    let fc = le32_at(b, off1) as int;
    assert(v.files.len() == fc);
    assert(b.subrange(off1, off1 + 4).len() == 4);
    assert(spec_u32_to_le_bytes(v.files.len() as u32) == b.subrange(off1, off1 + 4));
    lemma_file_records_roundtrip(b, off1 + 4, fc as nat);
    let off2 = off1 + 4 + 20 * fc;
    assert(file_records_bytes(v.files) =~= b.subrange(off1 + 4, off2));
    let pc = le32_at(b, off2) as int;
    assert(v.paths.len() == pc);
    assert(b.subrange(off2, off2 + 4).len() == 4);
    assert(spec_u32_to_le_bytes(v.paths.len() as u32) == b.subrange(off2, off2 + 4));
    lemma_path_records_roundtrip(b, off2 + 4, pc as nat);
    let off3 = off2 + 4 + 20 * pc;
    assert(path_records_bytes(v.paths) =~= b.subrange(off2 + 4, off3));
    crate::codec::lemma_parse_then_serialize(b.subrange(off3, b.len() as int));
    assert(spec_serialize_bundle(v.path_bundle) == b.subrange(off3, b.len() as int));
    assert(spec_serialize_index(v) =~= b);
}

/// Sum of the `size` fields of a file table.
pub open spec fn sum_file_sizes(files: Seq<FileRecord>) -> int
    decreases files.len(),
{
    if files.len() == 0 {
        0
    } else {
        sum_file_sizes(files.drop_last()) + files.last().size
    }
}

pub proof fn lemma_sum_file_sizes_take_step(files: Seq<FileRecord>, i: int)
    requires
        0 <= i < files.len(),
    ensures
        sum_file_sizes(files.take(i + 1)) == sum_file_sizes(files.take(i)) + files[i].size,
{
    assert(files.take(i + 1).drop_last() =~= files.take(i));
    assert(files.take(i + 1).last() == files[i]);
}

pub proof fn lemma_sum_file_sizes_nonneg(files: Seq<FileRecord>)
    ensures
        sum_file_sizes(files) >= 0,
    decreases files.len(),
{
    if files.len() > 0 {
        lemma_sum_file_sizes_nonneg(files.drop_last());
    }
}

pub proof fn lemma_sum_file_sizes_take_bound(files: Seq<FileRecord>, i: int)
    requires
        0 <= i <= files.len(),
    ensures
        sum_file_sizes(files.take(i)) <= sum_file_sizes(files),
        sum_file_sizes(files.take(i)) >= 0,
    decreases files.len() - i,
{
    lemma_sum_file_sizes_nonneg(files.take(i));
    if i == files.len() {
        assert(files.take(i) =~= files);
    } else {
        lemma_sum_file_sizes_take_step(files, i);
        lemma_sum_file_sizes_take_bound(files, i + 1);
    }
}

} // verus!
