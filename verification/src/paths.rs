//! The path dictionary: per-record slices of prefix-compressed path
//! fragments, decoded by a two-phase state machine.
//!
//! Each slice starts with a `u32`. Zero starts a fragment-building phase;
//! anything else starts an emitting phase with that value as the first
//! fragment reference. The machine then alternates: a zero word toggles the
//! phase (clearing the fragment list when building resumes), and a non-zero
//! word names a fragment (one-based) whose text, extended by the
//! null-terminated string that follows, is appended to the fragment list and
//! — in the emitting phase — produced as a full path. The final four bytes
//! of a slice are a terminator and are never consumed as a word.

use crate::hash::{murmur_hash64a, PATH_HASH_SEED};
use crate::index::{FileRecord, Index, PathRecord};
use crate::util::{le32_at, null_pos, read_u32, scan_null};
use crate::Error;
use std::collections::HashMap;
use vstd::prelude::*;
use vstd::slice::{slice_subrange, slice_to_vec};
use vstd::utf8::valid_utf8;

verus! {

broadcast use vstd::std_specs::hash::group_hash_axioms;

/// A successful null scan lands at or after the start, on a zero byte.
pub proof fn lemma_null_pos_ge(b: Seq<u8>, off: int)
    ensures
        null_pos(b, off) matches Some(p) ==> off <= p < b.len(),
    decreases b.len() - off,
{
    if 0 <= off && off < b.len() && b[off] != 0 {
        lemma_null_pos_ge(b, off + 1);
    }
}

/// One run of the dictionary state machine from a given state.
///
/// `pending` holds a fragment reference that was read but not yet applied;
/// `building` is the current phase; `frags` the fragments defined so far.
/// Yields the full paths emitted from here on, or nothing when a reference
/// lacks its terminator or names text that is not UTF-8.
pub open spec fn spec_decode_state(
    b: Seq<u8>,
    off: int,
    pending: Option<u32>,
    building: bool,
    frags: Seq<Seq<u8>>,
) -> Option<Seq<Seq<u8>>>
    decreases b.len() - off, (if pending is Some { 0int } else { 1int }),
    via spec_decode_state_decreases
{
    match pending {
        Some(c) => match null_pos(b, off) {
            None => None,
            Some(p) => {
                let raw = b.subrange(off, p);
                if !valid_utf8(raw) {
                    None
                } else {
                    let s = if c - 1 < frags.len() {
                        frags[c - 1] + raw
                    } else {
                        raw
                    };
                    match spec_decode_state(b, p + 1, None, building, frags.push(s)) {
                        None => None,
                        Some(rest) => Some(
                            if building {
                                rest
                            } else {
                                seq![s] + rest
                            },
                        ),
                    }
                }
            },
        },
        None => {
            if off >= b.len() - 4 {
                Some(Seq::empty())
            } else {
                let c = le32_at(b, off);
                if c == 0 {
                    let nb = !building;
                    spec_decode_state(
                        b,
                        off + 4,
                        None,
                        nb,
                        if nb {
                            Seq::empty()
                        } else {
                            frags
                        },
                    )
                } else {
                    spec_decode_state(b, off + 4, Some(c), building, frags)
                }
            }
        },
    }
}

#[via_fn]
proof fn spec_decode_state_decreases(
    b: Seq<u8>,
    off: int,
    pending: Option<u32>,
    building: bool,
    frags: Seq<Seq<u8>>,
) {
    lemma_null_pos_ge(b, off);
}

/// Decode one path-dictionary slice: the paths it emits, in order.
pub open spec fn spec_decode_record(b: Seq<u8>) -> Option<Seq<Seq<u8>>> {
    if b.len() < 4 {
        None
    } else {
        let c0 = le32_at(b, 0);
        if c0 == 0 {
            spec_decode_state(b, 4, None, true, Seq::empty())
        } else {
            spec_decode_state(b, 4, Some(c0), false, Seq::empty())
        }
    }
}

/// Prefixing already-emitted paths onto the result of the rest of a run.
pub open spec fn prepend_paths(pre: Seq<Seq<u8>>, rest: Option<Seq<Seq<u8>>>) -> Option<
    Seq<Seq<u8>>,
> {
    match rest {
        None => None,
        Some(ps) => Some(pre + ps),
    }
}

/// Decode one path-dictionary slice.
///
/// Fails with `BadPathEncoding` exactly when the slice is shorter than its
/// leading word, a fragment lacks its null terminator, or fragment text is
/// not valid UTF-8.
pub fn decode_path_slice(slice: &[u8]) -> (r: Result<Vec<Vec<u8>>, Error>)
    ensures
        match r {
            Ok(emitted) => spec_decode_record(slice@) == Some(
                emitted@.map_values(|p: Vec<u8>| p@),
            ),
            Err(e) => spec_decode_record(slice@) is None && (e matches Error::BadPathEncoding),
        },
{
    let ghost gb = slice@;
    let vlen: usize = slice.len();
    if vlen < 4 {
        return Err(Error::BadPathEncoding);
    }
    let mut off: usize = 0;
    let c0 = match read_u32(slice, &mut off) {
        Ok(v) => v,
        Err(_) => {
            proof { assert(false); }
            return Err(Error::BadPathEncoding);
        },
    };
    let mut building: bool = c0 == 0;
    let mut pending: Option<u32> = if c0 == 0 {
        None
    } else {
        Some(c0)
    };
    let mut frags: Vec<Vec<u8>> = Vec::new();
    let mut emitted: Vec<Vec<u8>> = Vec::new();

    proof {
        let st = spec_decode_state(
            gb,
            4,
            pending,
            building,
            frags@.map_values(|p: Vec<u8>| p@),
        );
        assert(frags@.map_values(|p: Vec<u8>| p@) =~= Seq::<Seq<u8>>::empty());
        assert(emitted@.map_values(|p: Vec<u8>| p@) =~= Seq::<Seq<u8>>::empty());
        match st {
            None => {},
            Some(ps) => {
                assert(Seq::<Seq<u8>>::empty() + ps =~= ps);
            },
        }
    }
    loop
        invariant
            gb == slice@,
            gb.len() == vlen <= usize::MAX,
            4 <= vlen,
            off <= vlen,
            pending matches Some(c) ==> c != 0,
            spec_decode_record(gb) == prepend_paths(
                emitted@.map_values(|p: Vec<u8>| p@),
                spec_decode_state(
                    gb,
                    off as int,
                    pending,
                    building,
                    frags@.map_values(|p: Vec<u8>| p@),
                ),
            ),
        decreases gb.len() - off, (if pending is Some { 0int } else { 1int }),
    {
        let ghost gpre = emitted@.map_values(|p: Vec<u8>| p@);
        let ghost gfrags = frags@.map_values(|p: Vec<u8>| p@);
        let ghost goff = off as int;
        match pending {
            Some(c) => {
                pending = None;
                match scan_null(slice, off) {
                    None => {
                        return Err(Error::BadPathEncoding);
                    },
                    Some(p) => {
                        let raw = slice_subrange(slice, off, p);
                        if crate::text::utf8_to_string(raw).is_none() {
                            return Err(Error::BadPathEncoding);
                        }
                        let s: Vec<u8> = if c >= 1 && ((c - 1) as usize) < frags.len() {
                            let mut base = frags[(c - 1) as usize].clone();
                            base.extend_from_slice(raw);
                            base
                        } else {
                            slice_to_vec(raw)
                        };
                        proof {
                            let graw = gb.subrange(goff, p as int);
                            let gs = if c - 1 < gfrags.len() {
                                gfrags[c - 1] + graw
                            } else {
                                graw
                            };
                            assert(s@ == gs);
                        }
                        frags.push(s.clone());
                        off = p + 1;
                        if !building {
                            emitted.push(s);
                            proof {
                                assert(emitted@.map_values(|p2: Vec<u8>| p2@) =~= gpre + seq![s@]);
                                assert(frags@.map_values(|p2: Vec<u8>| p2@) =~= gfrags.push(s@));
                                match spec_decode_state(
                                    gb,
                                    off as int,
                                    pending,
                                    building,
                                    frags@.map_values(|p2: Vec<u8>| p2@),
                                ) {
                                    None => {},
                                    Some(rest) => {
                                        assert(gpre + (seq![s@] + rest) =~= (gpre + seq![s@])
                                            + rest);
                                    },
                                }
                            }
                        } else {
                            proof {
                                assert(frags@.map_values(|p2: Vec<u8>| p2@) =~= gfrags.push(s@));
                            }
                        }
                    },
                }
            },
            None => {
                if off >= vlen - 4 {
                    proof {
                        assert(spec_decode_state(gb, goff, pending, building, gfrags) == Some(
                            Seq::<Seq<u8>>::empty(),
                        ));
                        assert(gpre + Seq::<Seq<u8>>::empty() =~= gpre);
                    }
                    return Ok(emitted);
                }
                let c = match read_u32(slice, &mut off) {
                    Ok(v) => v,
                    Err(_) => {
                        proof { assert(false); }
                        return Err(Error::BadPathEncoding);
                    },
                };
                if c == 0 {
                    building = !building;
                    if building {
                        frags.clear();
                        proof {
                            assert(frags@.map_values(|p2: Vec<u8>| p2@) =~= Seq::<Seq<u8>>::empty());
                        }
                    }
                } else {
                    pending = Some(c);
                }
            },
        }
    }
}

/// Bytes of one record's slice within the decompressed dictionary payload.
pub open spec fn record_slice(data: Seq<u8>, pr: PathRecord) -> Seq<u8> {
    data.subrange(pr.offset as int, pr.offset + pr.size)
}

/// All paths emitted by the given records, in record order; nothing when
/// any record's slice is malformed.
pub open spec fn spec_records_paths(data: Seq<u8>, prs: Seq<PathRecord>) -> Option<Seq<Seq<u8>>>
    decreases prs.len(),
{
    if prs.len() == 0 {
        Some(Seq::empty())
    } else {
        match spec_records_paths(data, prs.drop_last()) {
            None => None,
            Some(pre) => match spec_decode_record(record_slice(data, prs.last())) {
                None => None,
                Some(ps) => Some(pre + ps),
            },
        }
    }
}

/// A malformed record poisons the whole dictionary decode.
pub proof fn lemma_records_paths_none_extends(data: Seq<u8>, prs: Seq<PathRecord>, k: int)
    requires
        0 <= k <= prs.len(),
        spec_records_paths(data, prs.take(k)) is None,
    ensures
        spec_records_paths(data, prs) is None,
    decreases prs.len() - k,
{
    if k == prs.len() {
        assert(prs.take(k) =~= prs);
    } else {
        assert(prs.take(k + 1).drop_last() =~= prs.take(k));
        lemma_records_paths_none_extends(data, prs, k + 1);
    }
}

/// Index of the last file record carrying the given hash, mirroring a map
/// built by inserting the records in table order.
pub open spec fn last_file_with_hash(files: Seq<FileRecord>, h: u64) -> Option<int>
    decreases files.len(),
{
    if files.len() == 0 {
        None
    } else if files.last().hash == h {
        Some(files.len() - 1)
    } else {
        last_file_with_hash(files.drop_last(), h)
    }
}

pub proof fn lemma_last_file_with_hash_props(files: Seq<FileRecord>, h: u64)
    ensures
        last_file_with_hash(files, h) matches Some(i) ==> 0 <= i < files.len() && files[i].hash
            == h,
    decreases files.len(),
{
    if files.len() > 0 && files.last().hash != h {
        lemma_last_file_with_hash_props(files.drop_last(), h);
    }
}

/// Join emitted paths against the file table: each path whose hash names a
/// file record becomes an entry `(path, file index)`; the rest are dropped.
pub open spec fn spec_join(files: Seq<FileRecord>, paths: Seq<Seq<u8>>) -> Seq<(Seq<u8>, int)>
    decreases paths.len(),
{
    if paths.len() == 0 {
        Seq::empty()
    } else {
        let pre = spec_join(files, paths.drop_last());
        match last_file_with_hash(files, crate::hash::murmur64a(paths.last(), crate::hash::PATH_HASH_SEED)) {
            None => pre,
            Some(fi) => pre.push((paths.last(), fi)),
        }
    }
}

/// The entries of a joined list whose file record lives in bundle `b`.
pub open spec fn spec_bucket(
    files: Seq<FileRecord>,
    entries: Seq<(Seq<u8>, int)>,
    b: int,
) -> Seq<(Seq<u8>, int)>
    decreases entries.len(),
{
    if entries.len() == 0 {
        Seq::empty()
    } else {
        let pre = spec_bucket(files, entries.drop_last(), b);
        let e = entries.last();
        if 0 <= e.1 < files.len() && files[e.1].bundle_idx == b {
            pre.push(e)
        } else {
            pre
        }
    }
}

/// Every joined entry points at a file record whose hash is the path's own
/// hash.
pub proof fn lemma_join_entries_hashed(files: Seq<FileRecord>, paths: Seq<Seq<u8>>)
    ensures
        forall|k: int|
            0 <= k < spec_join(files, paths).len() ==> {
                let e = #[trigger] spec_join(files, paths)[k];
                &&& 0 <= e.1 < files.len()
                &&& files[e.1].hash == crate::hash::murmur64a(e.0, crate::hash::PATH_HASH_SEED)
            },
    decreases paths.len(),
{
    if paths.len() > 0 {
        lemma_join_entries_hashed(files, paths.drop_last());
        let h = crate::hash::murmur64a(paths.last(), crate::hash::PATH_HASH_SEED);
        lemma_last_file_with_hash_props(files, h);
        let pre = spec_join(files, paths.drop_last());
        let whole = spec_join(files, paths);
        assert forall|k: int| 0 <= k < whole.len() implies {
            let e = #[trigger] whole[k];
            &&& 0 <= e.1 < files.len()
            &&& files[e.1].hash == crate::hash::murmur64a(e.0, crate::hash::PATH_HASH_SEED)
        } by {
            if k < pre.len() {
                assert(whole[k] == pre[k]);
            }
        }
    }
}

/// Every path placed in a bucket hashes to the very file record it is
/// paired with, and that record lives in the bucket's bundle.
pub proof fn lemma_bucket_entries_hashed(files: Seq<FileRecord>, paths: Seq<Seq<u8>>, b: int)
    ensures
        forall|k: int|
            0 <= k < spec_bucket(files, spec_join(files, paths), b).len() ==> {
                let e = #[trigger] spec_bucket(files, spec_join(files, paths), b)[k];
                &&& 0 <= e.1 < files.len()
                &&& files[e.1].bundle_idx == b
                &&& files[e.1].hash == crate::hash::murmur64a(e.0, crate::hash::PATH_HASH_SEED)
            },
{
    lemma_join_entries_hashed(files, paths);
    lemma_bucket_keeps_entry_props(files, spec_join(files, paths), b);
}

proof fn lemma_bucket_keeps_entry_props(files: Seq<FileRecord>, entries: Seq<(Seq<u8>, int)>, b: int)
    requires
        forall|k: int|
            0 <= k < entries.len() ==> {
                let e = #[trigger] entries[k];
                &&& 0 <= e.1 < files.len()
                &&& files[e.1].hash == crate::hash::murmur64a(e.0, crate::hash::PATH_HASH_SEED)
            },
    ensures
        forall|k: int|
            0 <= k < spec_bucket(files, entries, b).len() ==> {
                let e = #[trigger] spec_bucket(files, entries, b)[k];
                &&& 0 <= e.1 < files.len()
                &&& files[e.1].bundle_idx == b
                &&& files[e.1].hash == crate::hash::murmur64a(e.0, crate::hash::PATH_HASH_SEED)
            },
    decreases entries.len(),
{
    if entries.len() > 0 {
        assert(forall|k: int|
            0 <= k < entries.len() - 1 ==> entries.drop_last()[k] == #[trigger] entries[k]);
        lemma_bucket_keeps_entry_props(files, entries.drop_last(), b);
        let pre = spec_bucket(files, entries.drop_last(), b);
        let whole = spec_bucket(files, entries, b);
        assert forall|k: int| 0 <= k < whole.len() implies {
            let e = #[trigger] whole[k];
            &&& 0 <= e.1 < files.len()
            &&& files[e.1].bundle_idx == b
            &&& files[e.1].hash == crate::hash::murmur64a(e.0, crate::hash::PATH_HASH_SEED)
        } by {
            if k < pre.len() {
                assert(whole[k] == pre[k]);
            } else {
                assert(whole[k] == entries.last());
                assert(entries[entries.len() - 1] == entries.last());
            }
        }
    }
}

/// View of one dictionary bucket: each held path with its file index.
pub open spec fn entries_view(v: Seq<(Vec<u8>, usize)>) -> Seq<(Seq<u8>, int)> {
    v.map_values(|e: (Vec<u8>, usize)| (e.0@, e.1 as int))
}

impl Index {
    /// Decode the whole path dictionary against this index.
    ///
    /// `dict_data` is the decompressed payload of the nested path-dictionary
    /// bundle. On success the result holds one bucket per bundle record, in
    /// table order: bucket `b` lists, in emission order, each decoded path
    /// whose hash names a file record of bundle `b` (the last matching
    /// record when hashes collide), paired with that record's index in the
    /// file table. Paths whose hash names no file record are dropped.
    pub fn build_paths(&self, dict_data: &[u8]) -> (r: Result<Vec<Vec<(Vec<u8>, usize)>>, Error>)
        requires
            self.wf(),
            dict_data@.len() == self@.path_bundle.uncompressed_size,
        ensures
            match r {
                Ok(dict) => {
                    &&& spec_records_paths(dict_data@, self@.paths) is Some
                    &&& dict@.len() == self@.bundles.len()
                    &&& forall|b: int|
                        0 <= b < dict@.len() ==> entries_view((#[trigger] dict@[b])@)
                            == spec_bucket(
                            self@.files,
                            spec_join(
                                self@.files,
                                spec_records_paths(dict_data@, self@.paths)->Some_0,
                            ),
                            b,
                        )
                },
                Err(e) => spec_records_paths(dict_data@, self@.paths) is None && (e
                    matches Error::BadPathEncoding),
            },
    {
        let ghost gdata = dict_data@;
        let ghost gfiles = self@.files;
        let ghost gpaths = self@.paths;

        // Hash-to-file map: later records override earlier ones.
        let mut map: HashMap<u64, usize> = HashMap::new();
        let mut i: usize = 0;
        while i < self.files.len()
            invariant
                0 <= i <= gfiles.len(),
                gfiles == self@.files,
                forall|h: u64| #[trigger]
                    map@.contains_key(h) <==> last_file_with_hash(
                        gfiles.take(i as int),
                        h,
                    ) is Some,
                forall|h: u64|
                    map@.contains_key(h) ==> #[trigger] map@[h] as int == last_file_with_hash(
                        gfiles.take(i as int),
                        h,
                    )->Some_0,
            decreases gfiles.len() - i,
        {
            let rec = self.files[i];
            map.insert(rec.hash, i);
            proof {
                assert forall|h: u64| #[trigger]
                    map@.contains_key(h) <==> last_file_with_hash(
                        gfiles.take(i + 1),
                        h,
                    ) is Some by {
                    assert(gfiles.take(i + 1).drop_last() =~= gfiles.take(i as int));
                    assert(gfiles.take(i + 1).last() == gfiles[i as int]);
                }
                assert forall|h: u64| map@.contains_key(h) implies #[trigger] map@[h] as int
                    == last_file_with_hash(gfiles.take(i + 1), h)->Some_0 by {
                    assert(gfiles.take(i + 1).drop_last() =~= gfiles.take(i as int));
                    assert(gfiles.take(i + 1).last() == gfiles[i as int]);
                }
            }
            i = i + 1;
        }
        proof {
            assert(gfiles.take(gfiles.len() as int) =~= gfiles);
        }

        // Decode every record, joining each emitted path against the map.
        let ghost mut all: Seq<Seq<u8>> = Seq::empty();
        let mut entries: Vec<(Vec<u8>, usize)> = Vec::new();
        let mut k: usize = 0;
        while k < self.paths.len()
            invariant
                0 <= k <= gpaths.len(),
                self.wf(),
                gdata == dict_data@,
                gfiles == self@.files,
                gpaths == self@.paths,
                gdata.len() == self@.path_bundle.uncompressed_size,
                spec_records_paths(gdata, gpaths.take(k as int)) == Some(all),
                entries_view(entries@) == spec_join(gfiles, all),
                forall|h: u64| #[trigger]
                    map@.contains_key(h) <==> last_file_with_hash(gfiles, h) is Some,
                forall|h: u64|
                    map@.contains_key(h) ==> #[trigger] map@[h] as int == last_file_with_hash(
                        gfiles,
                        h,
                    )->Some_0,
            decreases gpaths.len() - k,
        {
            let pr = self.paths[k];
            proof {
                assert(gpaths[k as int].offset + gpaths[k as int].size
                    <= self@.path_bundle.uncompressed_size);
            }
            let slice = slice_subrange(
                dict_data,
                pr.offset as usize,
                pr.offset as usize + pr.size as usize,
            );
            let ghost gslice = record_slice(gdata, gpaths[k as int]);
            proof {
                assert(slice@ == gslice);
                assert(gpaths.take(k + 1).drop_last() =~= gpaths.take(k as int));
                assert(gpaths.take(k + 1).last() == gpaths[k as int]);
            }
            let decoded = match decode_path_slice(slice) {
                Ok(d) => d,
                Err(_) => {
                    proof {
                        lemma_records_paths_none_extends(gdata, gpaths, k + 1);
                    }
                    return Err(Error::BadPathEncoding);
                },
            };
            let ghost gdecoded = decoded@.map_values(|p: Vec<u8>| p@);
            let mut t: usize = 0;
            while t < decoded.len()
                invariant
                    0 <= t <= gdecoded.len(),
                    gfiles == self@.files,
                    gdecoded == decoded@.map_values(|p: Vec<u8>| p@),
                    entries_view(entries@) == spec_join(gfiles, all + gdecoded.take(t as int)),
                    forall|h: u64| #[trigger]
                        map@.contains_key(h) <==> last_file_with_hash(gfiles, h) is Some,
                    forall|h: u64|
                        map@.contains_key(h) ==> #[trigger] map@[h] as int == last_file_with_hash(
                            gfiles,
                            h,
                        )->Some_0,
                decreases gdecoded.len() - t,
            {
                let p = decoded[t].clone();
                let h = murmur_hash64a(p.as_slice(), PATH_HASH_SEED);
                let ghost prev = all + gdecoded.take(t as int);
                proof {
                    assert((all + gdecoded.take(t + 1)).drop_last() =~= prev);
                    assert((all + gdecoded.take(t + 1)).last() == gdecoded[t as int]);
                    lemma_last_file_with_hash_props(gfiles, h);
                }
                match map.get(&h) {
                    Some(fi) => {
                        let fi = *fi;
                        entries.push((p, fi));
                        proof {
                            assert(entries_view(entries@) =~= spec_join(
                                gfiles,
                                prev,
                            ).push((gdecoded[t as int], fi as int)));
                        }
                    },
                    None => {},
                }
                t = t + 1;
            }
            proof {
                assert(gdecoded.take(gdecoded.len() as int) =~= gdecoded);
                all = all + gdecoded;
            }
            k = k + 1;
        }
        proof {
            assert(gpaths.take(gpaths.len() as int) =~= gpaths);
        }

        // Distribute the joined entries into one bucket per bundle.
        let nb = self.bundles.len();
        let mut dict: Vec<Vec<(Vec<u8>, usize)>> = Vec::new();
        let mut b: usize = 0;
        while b < nb
            invariant
                0 <= b <= nb,
                nb == self@.bundles.len(),
                gfiles == self@.files,
                entries_view(entries@) == spec_join(gfiles, all),
                dict@.len() == b,
                forall|bi: int|
                    0 <= bi < b ==> entries_view((#[trigger] dict@[bi])@) == spec_bucket(
                        gfiles,
                        spec_join(gfiles, all),
                        bi,
                    ),
            decreases nb - b,
        {
            let mut bucket: Vec<(Vec<u8>, usize)> = Vec::new();
            let mut e: usize = 0;
            while e < entries.len()
                invariant
                    0 <= e <= entries@.len(),
                    gfiles == self@.files,
                    entries_view(entries@) == spec_join(gfiles, all),
                    entries_view(bucket@) == spec_bucket(
                        gfiles,
                        entries_view(entries@).take(e as int),
                        b as int,
                    ),
                decreases entries@.len() - e,
            {
                let ghost geview = entries_view(entries@);
                proof {
                    assert(geview.take(e + 1).drop_last() =~= geview.take(e as int));
                    assert(geview.take(e + 1).last() == geview[e as int]);
                }
                let fi = entries[e].1;
                if fi < self.files.len() && self.files[fi].bundle_idx as usize == b {
                    let path_copy = entries[e].0.clone();
                    bucket.push((path_copy, fi));
                    proof {
                        assert(entries_view(bucket@) =~= spec_bucket(
                            gfiles,
                            geview.take(e as int),
                            b as int,
                        ).push(geview[e as int]));
                    }
                }
                e = e + 1;
            }
            proof {
                assert(entries_view(entries@).take(entries@.len() as int) =~= entries_view(
                    entries@,
                ));
            }
            dict.push(bucket);
            b = b + 1;
        }
        Ok(dict)
    }
}

} // verus!
