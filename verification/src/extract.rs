//! Extraction planning: which bundles to open, which decoded paths to
//! write, and the exact byte range each written file takes from its
//! bundle's decompressed payload.
//!
//! Reading bundle files and writing extracted files is input/output and
//! lives with the caller; everything decided here — shader exclusion, glob
//! retention, empty-list dropping, and per-file slicing — is verified.

use crate::filter::{spec_filter_matches, Filter};
use crate::index::{BundleRecordView, Index};
use crate::paths::entries_view;
use crate::Error;
use vstd::prelude::*;
use vstd::slice::{slice_subrange, slice_to_vec};
use vstd::utf8::encode_utf8;

verus! {

/// The bytes of `"shadercache"`, the marker of shader-cache content.
pub open spec fn shadercache_needle() -> Seq<u8> {
    seq![115u8, 104u8, 97u8, 100u8, 101u8, 114u8, 99u8, 97u8, 99u8, 104u8, 101u8]
}

fn shadercache_bytes() -> (r: Vec<u8>)
    ensures
        r@ == shadercache_needle(),
{
    let mut v: Vec<u8> = Vec::new();
    v.push(115);
    v.push(104);
    v.push(97);
    v.push(100);
    v.push(101);
    v.push(114);
    v.push(99);
    v.push(97);
    v.push(99);
    v.push(104);
    v.push(101);
    proof {
        assert(v@ =~= shadercache_needle());
    }
    v
}

/// Whether `needle` occurs contiguously anywhere in `hay`.
pub open spec fn spec_contains(hay: Seq<u8>, needle: Seq<u8>) -> bool {
    exists|i: int|
        0 <= i <= hay.len() - needle.len() && #[trigger] hay.subrange(i, i + needle.len())
            == needle
}

/// Substring search, plain and quadratic.
pub fn contains_seq(hay: &[u8], needle: &[u8]) -> (r: bool)
    ensures
        r == spec_contains(hay@, needle@),
{
    let hlen = hay.len();
    let nlen = needle.len();
    if nlen > hlen {
        proof {
            assert(!spec_contains(hay@, needle@));
        }
        return false;
    }
    if nlen == 0 {
        proof {
            assert(hay@.subrange(0, 0 + needle@.len() as int) =~= needle@);
            assert(spec_contains(hay@, needle@));
        }
        return true;
    }
    let mut i: usize = 0;
    while i <= hlen - nlen
        invariant
            0 <= i <= hlen - nlen + 1,
            0 < nlen <= hlen,
            hlen == hay@.len(),
            nlen == needle@.len(),
            forall|k: int| 0 <= k < i ==> #[trigger] hay@.subrange(k, k + needle@.len())
                != needle@,
        decreases hlen - nlen - i + 1,
    {
        let mut j: usize = 0;
        let mut matched: bool = true;
        while j < nlen
            invariant
                0 <= j <= nlen,
                0 <= i <= hlen - nlen,
                nlen <= hlen,
                hlen == hay@.len(),
                nlen == needle@.len(),
                matched ==> forall|k: int| 0 <= k < j ==> hay@[i + k] == needle@[k],
                !matched ==> hay@.subrange(i as int, i + needle@.len()) != needle@,
            decreases nlen - j,
        {
            if hay[i + j] != needle[j] {
                proof {
                    assert(hay@.subrange(i as int, i + needle@.len())[j as int] == hay@[i + j]);
                }
                matched = false;
                j = nlen;
            } else {
                j = j + 1;
            }
        }
        if matched {
            proof {
                assert(hay@.subrange(i as int, i + needle@.len()) =~= needle@);
            }
            return true;
        }
        i = i + 1;
    }
    proof {
        assert forall|k: int|
            0 <= k <= hay@.len() - needle@.len() implies #[trigger] hay@.subrange(
            k,
            k + needle@.len(),
        ) != needle@ by {}
    }
    false
}

/// Whether a path (as bytes) carries the shader-cache marker.
pub fn contains_shadercache(path: &[u8]) -> (r: bool)
    ensures
        r == spec_contains(path@, shadercache_needle()),
{
    let needle = shadercache_bytes();
    contains_seq(path, needle.as_slice())
}

/// Copy one file's bytes out of a decompressed bundle payload.
///
/// Succeeds exactly when the record's range lies within the payload; the
/// result is that range, byte for byte.
pub fn slice_file(data: &[u8], offset: u32, size: u32) -> (r: Result<Vec<u8>, Error>)
    ensures
        match r {
            Ok(out) => offset + size <= data@.len() && out@ == data@.subrange(
                offset as int,
                offset + size,
            ) && out@.len() == size,
            Err(e) => offset + size > data@.len() && (e matches Error::InvalidFormat { .. }),
        },
{
    let dlen = data.len();
    if (offset as u64) + (size as u64) > (dlen as u64) {
        return Err(Error::InvalidFormat { reason: "file range lies outside the bundle payload" });
    }
    let start = offset as usize;
    let end = offset as usize + size as usize;
    Ok(slice_to_vec(slice_subrange(data, start, end)))
}

/// The entries of a bucket whose path matches the filter (all of them when
/// no filter is given).
pub open spec fn spec_glob_retain(
    entries: Seq<(Seq<u8>, int)>,
    filter: Option<Seq<Seq<char>>>,
) -> Seq<(Seq<u8>, int)>
    decreases entries.len(),
{
    if entries.len() == 0 {
        Seq::empty()
    } else {
        let pre = spec_glob_retain(entries.drop_last(), filter);
        let keep = match filter {
            Some(pats) => spec_filter_matches(pats, entries.last().0),
            None => true,
        };
        if keep {
            pre.push(entries.last())
        } else {
            pre
        }
    }
}

/// The entries of a bucket whose path is free of shader-cache content
/// (all of them when shaders are kept).
pub open spec fn spec_shader_retain(entries: Seq<(Seq<u8>, int)>, shaders: bool) -> Seq<
    (Seq<u8>, int),
>
    decreases entries.len(),
{
    if entries.len() == 0 {
        Seq::empty()
    } else {
        let pre = spec_shader_retain(entries.drop_last(), shaders);
        if shaders || !spec_contains(entries.last().0, shadercache_needle()) {
            pre.push(entries.last())
        } else {
            pre
        }
    }
}

/// The extraction plan over the first `n` bundles: skip shader-cache
/// bundles when shaders are off; retain each bundle's files through the
/// filter, dropping any bundle whose retained list is empty — a bundle no
/// decoded path references is never opened; then drop individual
/// shader-cache paths when shaders are off.
pub open spec fn spec_plan_prefix(
    bundles: Seq<BundleRecordView>,
    dict: Seq<Seq<(Seq<u8>, int)>>,
    filter: Option<Seq<Seq<char>>>,
    shaders: bool,
    n: int,
) -> Seq<(int, Seq<(Seq<u8>, int)>)>
    decreases n,
{
    if n <= 0 {
        Seq::empty()
    } else {
        let pre = spec_plan_prefix(bundles, dict, filter, shaders, n - 1);
        let b = n - 1;
        if !shaders && spec_contains(encode_utf8(bundles[b].path), shadercache_needle()) {
            pre
        } else {
            let retained = spec_glob_retain(dict[b], filter);
            if retained.len() == 0 {
                pre
            } else {
                pre.push((b, spec_shader_retain(retained, shaders)))
            }
        }
    }
}

/// The full extraction plan: one entry per bundle that survives the
/// shader and filter rules, carrying the files to write from it.
pub open spec fn spec_plan(
    bundles: Seq<BundleRecordView>,
    dict: Seq<Seq<(Seq<u8>, int)>>,
    filter: Option<Seq<Seq<char>>>,
    shaders: bool,
) -> Seq<(int, Seq<(Seq<u8>, int)>)> {
    spec_plan_prefix(bundles, dict, filter, shaders, bundles.len() as int)
}

/// Whether one entry survives the glob filter.
pub open spec fn glob_keeps(filter: Option<Seq<Seq<char>>>, e: (Seq<u8>, int)) -> bool {
    match filter {
        Some(pats) => spec_filter_matches(pats, e.0),
        None => true,
    }
}

/// Whether one entry survives the shader rule.
pub open spec fn shader_keeps(shaders: bool, e: (Seq<u8>, int)) -> bool {
    shaders || !spec_contains(e.0, shadercache_needle())
}

proof fn lemma_glob_retain_all_match(entries: Seq<(Seq<u8>, int)>, filter: Option<Seq<Seq<char>>>)
    ensures
        forall|k: int|
            0 <= k < spec_glob_retain(entries, filter).len() ==> glob_keeps(
                filter,
                #[trigger] spec_glob_retain(entries, filter)[k],
            ),
    decreases entries.len(),
{
    if entries.len() > 0 {
        lemma_glob_retain_all_match(entries.drop_last(), filter);
        let pre = spec_glob_retain(entries.drop_last(), filter);
        let whole = spec_glob_retain(entries, filter);
        assert forall|k: int| 0 <= k < whole.len() implies glob_keeps(
            filter,
            #[trigger] whole[k],
        ) by {
            if k < pre.len() {
                assert(whole[k] == pre[k]);
            }
        }
    }
}

proof fn lemma_shader_retain_all_clean(entries: Seq<(Seq<u8>, int)>, shaders: bool)
    ensures
        forall|k: int|
            0 <= k < spec_shader_retain(entries, shaders).len() ==> shader_keeps(
                shaders,
                #[trigger] spec_shader_retain(entries, shaders)[k],
            ),
    decreases entries.len(),
{
    if entries.len() > 0 {
        lemma_shader_retain_all_clean(entries.drop_last(), shaders);
        let pre = spec_shader_retain(entries.drop_last(), shaders);
        let whole = spec_shader_retain(entries, shaders);
        assert forall|k: int| 0 <= k < whole.len() implies shader_keeps(
            shaders,
            #[trigger] whole[k],
        ) by {
            if k < pre.len() {
                assert(whole[k] == pre[k]);
            }
        }
    }
}

proof fn lemma_shader_retain_preserves_match(
    entries: Seq<(Seq<u8>, int)>,
    shaders: bool,
    filter: Option<Seq<Seq<char>>>,
)
    requires
        forall|k: int| 0 <= k < entries.len() ==> glob_keeps(filter, #[trigger] entries[k]),
    ensures
        forall|k: int|
            0 <= k < spec_shader_retain(entries, shaders).len() ==> glob_keeps(
                filter,
                #[trigger] spec_shader_retain(entries, shaders)[k],
            ),
    decreases entries.len(),
{
    if entries.len() > 0 {
        assert(forall|k: int|
            0 <= k < entries.len() - 1 ==> entries.drop_last()[k] == #[trigger] entries[k]);
        lemma_shader_retain_preserves_match(entries.drop_last(), shaders, filter);
        let pre = spec_shader_retain(entries.drop_last(), shaders);
        let whole = spec_shader_retain(entries, shaders);
        assert forall|k: int| 0 <= k < whole.len() implies glob_keeps(
            filter,
            #[trigger] whole[k],
        ) by {
            if k < pre.len() {
                assert(whole[k] == pre[k]);
            } else {
                assert(entries[entries.len() - 1] == entries.last());
            }
        }
    }
}

proof fn lemma_glob_retain_identity(entries: Seq<(Seq<u8>, int)>, filter: Option<Seq<Seq<char>>>)
    requires
        forall|k: int| 0 <= k < entries.len() ==> glob_keeps(filter, #[trigger] entries[k]),
    ensures
        spec_glob_retain(entries, filter) == entries,
    decreases entries.len(),
{
    if entries.len() > 0 {
        assert(forall|k: int|
            0 <= k < entries.len() - 1 ==> entries.drop_last()[k] == #[trigger] entries[k]);
        lemma_glob_retain_identity(entries.drop_last(), filter);
        assert(entries[entries.len() - 1] == entries.last());
        assert(spec_glob_retain(entries, filter) =~= entries);
    }
}

proof fn lemma_shader_retain_identity(entries: Seq<(Seq<u8>, int)>, shaders: bool)
    requires
        forall|k: int| 0 <= k < entries.len() ==> shader_keeps(shaders, #[trigger] entries[k]),
    ensures
        spec_shader_retain(entries, shaders) == entries,
    decreases entries.len(),
{
    if entries.len() > 0 {
        assert(forall|k: int|
            0 <= k < entries.len() - 1 ==> entries.drop_last()[k] == #[trigger] entries[k]);
        lemma_shader_retain_identity(entries.drop_last(), shaders);
        assert(entries[entries.len() - 1] == entries.last());
        assert(spec_shader_retain(entries, shaders) =~= entries);
    }
}

/// Filtering is idempotent: the write list an extraction computes, run
/// through the same filter and shader rules a second time, is unchanged.
/// Extracting twice with one filter therefore plans the very same writes,
/// so the files the second run produces are identical to the first run's.
pub proof fn lemma_filter_idempotent(
    entries: Seq<(Seq<u8>, int)>,
    filter: Option<Seq<Seq<char>>>,
    shaders: bool,
)
    ensures
        spec_shader_retain(
            spec_glob_retain(spec_shader_retain(spec_glob_retain(entries, filter), shaders), filter),
            shaders,
        ) == spec_shader_retain(spec_glob_retain(entries, filter), shaders),
{
    let once = spec_shader_retain(spec_glob_retain(entries, filter), shaders);
    lemma_glob_retain_all_match(entries, filter);
    lemma_shader_retain_preserves_match(spec_glob_retain(entries, filter), shaders, filter);
    lemma_glob_retain_identity(once, filter);
    lemma_shader_retain_all_clean(spec_glob_retain(entries, filter), shaders);
    lemma_shader_retain_identity(once, shaders);
}

/// View of a filter argument.
pub open spec fn filter_view(filter: Option<&Filter>) -> Option<Seq<Seq<char>>> {
    match filter {
        Some(f) => Some(f@),
        None => None,
    }
}

/// The bundles the dictionary references, in table order: one pair per
/// non-empty bucket among the first `n`.
pub open spec fn spec_bundle_pairs(dict: Seq<Seq<(Seq<u8>, int)>>, n: int) -> Seq<
    (int, Seq<(Seq<u8>, int)>),
>
    decreases n,
{
    if n <= 0 {
        Seq::empty()
    } else {
        let pre = spec_bundle_pairs(dict, n - 1);
        if dict[n - 1].len() == 0 {
            pre
        } else {
            pre.push((n - 1, dict[n - 1]))
        }
    }
}

impl Index {
    /// Pair each referenced bundle with its decoded file list, in table
    /// order. A bundle no decoded path references has an empty bucket and
    /// yields no pair.
    pub fn iter_bundles(&self, dict: &Vec<Vec<(Vec<u8>, usize)>>) -> (r: Vec<
        (usize, Vec<(Vec<u8>, usize)>),
    >)
        ensures
            r@.map_values(|e: (usize, Vec<(Vec<u8>, usize)>)| (e.0 as int, entries_view(e.1@)))
                == spec_bundle_pairs(
                dict@.map_values(|v: Vec<(Vec<u8>, usize)>| entries_view(v@)),
                dict@.len() as int,
            ),
    {
        let ghost gdict = dict@.map_values(|v: Vec<(Vec<u8>, usize)>| entries_view(v@));
        let mut out: Vec<(usize, Vec<(Vec<u8>, usize)>)> = Vec::new();
        let mut b: usize = 0;
        while b < dict.len()
            invariant
                0 <= b <= dict@.len(),
                gdict == dict@.map_values(|v: Vec<(Vec<u8>, usize)>| entries_view(v@)),
                out@.map_values(|e: (usize, Vec<(Vec<u8>, usize)>)| (e.0 as int, entries_view(e.1@)))
                    == spec_bundle_pairs(gdict, b as int),
            decreases dict@.len() - b,
        {
            let ghost gout = out@.map_values(
                |e: (usize, Vec<(Vec<u8>, usize)>)| (e.0 as int, entries_view(e.1@)),
            );
            let bucket = &dict[b];
            if bucket.len() != 0 {
                let mut copy: Vec<(Vec<u8>, usize)> = Vec::new();
                let mut e: usize = 0;
                while e < bucket.len()
                    invariant
                        0 <= e <= bucket@.len(),
                        0 <= b < dict@.len(),
                        bucket@ == dict@[b as int]@,
                        copy@.len() == e,
                        forall|k: int|
                            0 <= k < e ==> (#[trigger] copy@[k]).0@ == bucket@[k].0@ && copy@[k].1
                                == bucket@[k].1,
                    decreases bucket@.len() - e,
                {
                    let entry = (bucket[e].0.clone(), bucket[e].1);
                    copy.push(entry);
                    e = e + 1;
                }
                proof {
                    assert(entries_view(copy@) =~= entries_view(bucket@));
                }
                out.push((b, copy));
                proof {
                    assert(out@.map_values(
                        |e2: (usize, Vec<(Vec<u8>, usize)>)| (e2.0 as int, entries_view(e2.1@)),
                    ) =~= gout.push((b as int, gdict[b as int])));
                }
            } else {
                proof {
                    assert(entries_view(bucket@).len() == 0);
                }
            }
            b = b + 1;
        }
        out
    }

    /// Compute the extraction plan for this index.
    ///
    /// `dict` must be the decoded dictionary for this index, one bucket per
    /// bundle. The plan lists, in table order, each bundle to open together
    /// with the files to write out of it; a bundle whose retained file list
    /// is empty — unreferenced by any decoded path, or filtered away — is
    /// never opened.
    pub fn extraction_plan(
        &self,
        dict: &Vec<Vec<(Vec<u8>, usize)>>,
        filter: Option<&Filter>,
        shaders: bool,
    ) -> (r: Vec<(usize, Vec<(Vec<u8>, usize)>)>)
        requires
            dict@.len() == self@.bundles.len(),
            match filter {
                Some(f) => f.wf(),
                None => true,
            },
        ensures
            r@.map_values(|e: (usize, Vec<(Vec<u8>, usize)>)| (e.0 as int, entries_view(e.1@)))
                == spec_plan(
                self@.bundles,
                dict@.map_values(|v: Vec<(Vec<u8>, usize)>| entries_view(v@)),
                filter_view(filter),
                shaders,
            ),
    {
        let ghost gbundles = self@.bundles;
        let ghost gdict = dict@.map_values(|v: Vec<(Vec<u8>, usize)>| entries_view(v@));
        let ghost gfilter = filter_view(filter);
        let nb = self.bundles.len();
        let mut out: Vec<(usize, Vec<(Vec<u8>, usize)>)> = Vec::new();
        let mut b: usize = 0;
        while b < nb
            invariant
                0 <= b <= nb,
                nb == gbundles.len(),
                gbundles == self@.bundles,
                dict@.len() == nb,
                gdict == dict@.map_values(|v: Vec<(Vec<u8>, usize)>| entries_view(v@)),
                gfilter == filter_view(filter),
                match filter {
                    Some(f) => f.wf(),
                    None => true,
                },
                out@.map_values(|e: (usize, Vec<(Vec<u8>, usize)>)| (e.0 as int, entries_view(e.1@)))
                    == spec_plan_prefix(gbundles, gdict, gfilter, shaders, b as int),
            decreases nb - b,
        {
            let ghost gout = out@.map_values(
                |e: (usize, Vec<(Vec<u8>, usize)>)| (e.0 as int, entries_view(e.1@)),
            );
            let skip_bundle = if shaders {
                false
            } else {
                contains_shadercache(self.bundles[b].path.as_str().as_bytes())
            };
            if !skip_bundle {
                // Retain the bucket's entries through the filter.
                let bucket = &dict[b];
                let mut retained: Vec<(Vec<u8>, usize)> = Vec::new();
                let mut e: usize = 0;
                while e < bucket.len()
                    invariant
                        0 <= e <= bucket@.len(),
                        gdict == dict@.map_values(|v: Vec<(Vec<u8>, usize)>| entries_view(v@)),
                        0 <= b < dict@.len(),
                        bucket@ == dict@[b as int]@,
                        gfilter == filter_view(filter),
                        match filter {
                            Some(f) => f.wf(),
                            None => true,
                        },
                        entries_view(retained@) == spec_glob_retain(
                            entries_view(bucket@).take(e as int),
                            gfilter,
                        ),
                    decreases bucket@.len() - e,
                {
                    let ghost geb = entries_view(bucket@);
                    proof {
                        assert(geb.take(e + 1).drop_last() =~= geb.take(e as int));
                        assert(geb.take(e + 1).last() == geb[e as int]);
                    }
                    let keep = match filter {
                        Some(f) => f.is_match(bucket[e].0.as_slice()),
                        None => true,
                    };
                    if keep {
                        let entry = (bucket[e].0.clone(), bucket[e].1);
                        retained.push(entry);
                        proof {
                            assert(entries_view(retained@) =~= spec_glob_retain(
                                geb.take(e as int),
                                gfilter,
                            ).push(geb[e as int]));
                        }
                    }
                    e = e + 1;
                }
                proof {
                    assert(entries_view(bucket@).take(bucket@.len() as int) =~= entries_view(
                        bucket@,
                    ));
                    assert(entries_view(retained@) == spec_glob_retain(gdict[b as int], gfilter));
                }

                if retained.len() != 0 {
                    // Drop individual shader-cache paths when shaders are off.
                    let mut writes: Vec<(Vec<u8>, usize)> = Vec::new();
                    let ghost gret = entries_view(retained@);
                    let mut w: usize = 0;
                    while w < retained.len()
                        invariant
                            0 <= w <= retained@.len(),
                            gret == entries_view(retained@),
                            entries_view(writes@) == spec_shader_retain(
                                gret.take(w as int),
                                shaders,
                            ),
                        decreases retained@.len() - w,
                    {
                        proof {
                            assert(gret.take(w + 1).drop_last() =~= gret.take(w as int));
                            assert(gret.take(w + 1).last() == gret[w as int]);
                        }
                        let keep = if shaders {
                            true
                        } else {
                            !contains_shadercache(retained[w].0.as_slice())
                        };
                        if keep {
                            let entry = (retained[w].0.clone(), retained[w].1);
                            writes.push(entry);
                            proof {
                                assert(entries_view(writes@) =~= spec_shader_retain(
                                    gret.take(w as int),
                                    shaders,
                                ).push(gret[w as int]));
                            }
                        }
                        w = w + 1;
                    }
                    proof {
                        assert(gret.take(retained@.len() as int) =~= gret);
                    }
                    out.push((b, writes));
                    proof {
                        assert(out@.map_values(
                            |e2: (usize, Vec<(Vec<u8>, usize)>)|
                                (e2.0 as int, entries_view(e2.1@)),
                        ) =~= gout.push(
                            (
                                b as int,
                                spec_shader_retain(
                                    spec_glob_retain(gdict[b as int], gfilter),
                                    shaders,
                                ),
                            ),
                        ));
                    }
                }
            }
            b = b + 1;
        }
        proof {
            assert(spec_plan(gbundles, gdict, gfilter, shaders) == spec_plan_prefix(
                gbundles,
                gdict,
                gfilter,
                shaders,
                nb as int,
            ));
        }
        out
    }
}

} // verus!
