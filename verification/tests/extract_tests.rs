use bundle::codec::Bundle;
use bundle::extract::{contains_shadercache, slice_file};
use bundle::filter::Filter;
use bundle::index::{BundleRecord, Index};
use bundle::Error;

/// An index fixture built directly: two bundles, no tables needed beyond
/// the bundle records, since the plan works from a decoded dictionary.
fn fixture(paths: &[&str]) -> (Index, Vec<Vec<(Vec<u8>, usize)>>) {
    let empty_bundle = Bundle {
        uncompressed_size: 0,
        compressed_size: 0,
        seek_table_size: 48,
        compressor: 12,
        seek_chunks_independent: 1,
        total_raw_len: 0,
        total_comp_len: 0,
        num_seek_chunks: 0,
        seek_chunk_len: 262_144,
        comp_lens_addr: 0,
        crcs_addr: 0,
        seek_chunk_comp_lens: vec![],
        chunks: vec![],
        raw_crcs: None,
    };
    let index = Index {
        bundles: vec![
            BundleRecord { path: paths[0].to_string(), uncompressed_size: 10 },
            BundleRecord { path: paths[1].to_string(), uncompressed_size: 10 },
        ],
        files: vec![],
        paths: vec![],
        path_bundle: empty_bundle,
    };
    let dict = vec![
        vec![
            (b"a.txt".to_vec(), 0usize),
            (b"b.dds".to_vec(), 1usize),
            (b"shadercache_blob.bin".to_vec(), 2usize),
        ],
        vec![(b"c.txt".to_vec(), 3usize)],
    ];
    (index, dict)
}

#[test]
fn plan_keeps_everything_by_default() {
    let (index, dict) = fixture(&["art", "meta"]);
    let plan = index.extraction_plan(&dict, None, true);
    assert_eq!(plan.len(), 2);
    assert_eq!(plan[0].0, 0);
    assert_eq!(plan[0].1.len(), 3);
    assert_eq!(plan[1].0, 1);
    assert_eq!(plan[1].1.len(), 1);
}

#[test]
fn plan_excludes_shader_bundles_and_paths() {
    let (index, dict) = fixture(&["art", "shadercache/sm5"]);
    let plan = index.extraction_plan(&dict, None, false);
    // The shader-cache bundle is skipped entirely; within the other bundle
    // the shader-cache path is dropped.
    assert_eq!(plan.len(), 1);
    assert_eq!(plan[0].0, 0);
    let written: Vec<&[u8]> = plan[0].1.iter().map(|e| e.0.as_slice()).collect();
    assert_eq!(written, vec![b"a.txt".as_slice(), b"b.dds".as_slice()]);
    for (_, files) in &plan {
        for (path, _) in files {
            assert!(!contains_shadercache(path));
        }
    }
}

#[test]
fn plan_retains_by_glob_and_drops_empty_bundles() {
    let (index, dict) = fixture(&["art", "meta"]);
    let filter = Filter::new("*.dds").unwrap();
    let plan = index.extraction_plan(&dict, Some(&filter), true);
    // Bundle 1 has no match left and is dropped with the filter supplied.
    assert_eq!(plan.len(), 1);
    assert_eq!(plan[0].0, 0);
    assert_eq!(plan[0].1.len(), 1);
    assert_eq!(plan[0].1[0].0, b"b.dds");
}

#[test]
fn plan_filter_multiple_tokens() {
    let (index, dict) = fixture(&["art", "meta"]);
    let filter = Filter::new("*.txt,*.dds").unwrap();
    let plan = index.extraction_plan(&dict, Some(&filter), true);
    assert_eq!(plan.len(), 2);
    assert_eq!(plan[0].1.len(), 2);
    assert_eq!(plan[1].1.len(), 1);
}

#[test]
fn plan_filter_matching_nothing_is_empty() {
    let (index, dict) = fixture(&["art", "meta"]);
    let filter = Filter::new("*.ogg").unwrap();
    let plan = index.extraction_plan(&dict, Some(&filter), true);
    assert_eq!(plan.len(), 0);
}

#[test]
fn plan_same_filter_twice_is_identical() {
    let (index, dict) = fixture(&["art", "meta"]);
    let filter = Filter::new("*.txt").unwrap();
    let first = index.extraction_plan(&dict, Some(&filter), false);
    let second = index.extraction_plan(&dict, Some(&filter), false);
    assert_eq!(first, second);
}

#[test]
fn iter_bundles_pairs_in_order() {
    let (index, dict) = fixture(&["art", "meta"]);
    let pairs = index.iter_bundles(&dict);
    assert_eq!(pairs.len(), 2);
    assert_eq!(pairs[0].0, 0);
    assert_eq!(pairs[0].1, dict[0]);
    assert_eq!(pairs[1].0, 1);
    assert_eq!(pairs[1].1, dict[1]);
}

#[test]
fn iter_bundles_skips_unreferenced_bundles() {
    // A bundle no decoded path references has an empty bucket: no pair.
    let (index, mut dict) = fixture(&["art", "meta"]);
    dict[0].clear();
    let pairs = index.iter_bundles(&dict);
    assert_eq!(pairs.len(), 1);
    assert_eq!(pairs[0].0, 1);
    assert_eq!(pairs[0].1, dict[1]);
}

#[test]
fn plan_skips_unreferenced_bundles_without_filter() {
    // Even with no filter, a bundle with an empty file list is never opened.
    let (index, mut dict) = fixture(&["art", "meta"]);
    dict[1].clear();
    let plan = index.extraction_plan(&dict, None, true);
    assert_eq!(plan.len(), 1);
    assert_eq!(plan[0].0, 0);
    assert_eq!(plan[0].1.len(), 3);
}

#[test]
fn filter_tokens_split_on_commas() {
    let filter = Filter::new("*.dds,metadata/**/*.ot").unwrap();
    assert_eq!(filter.patterns, vec!["*.dds".to_string(), "metadata/**/*.ot".to_string()]);
}

#[test]
fn filter_rejects_bad_pattern() {
    let e = Filter::new("a[").unwrap_err();
    assert!(matches!(e, Error::InvalidPattern { token } if token == "a["));
}

#[test]
fn filter_reports_first_bad_token() {
    let e = Filter::new("*.txt,b[,c[").unwrap_err();
    assert!(matches!(e, Error::InvalidPattern { token } if token == "b["));
}

#[test]
fn filter_is_match_is_a_disjunction() {
    let filter = Filter::new("*.txt,*.dds").unwrap();
    assert!(filter.is_match(b"a.txt"));
    assert!(filter.is_match(b"b.dds"));
    assert!(!filter.is_match(b"c.ogg"));
}

#[test]
fn contains_shadercache_is_substring_search() {
    assert!(contains_shadercache(b"foo/shadercache/bar"));
    assert!(contains_shadercache(b"shadercache"));
    assert!(!contains_shadercache(b"shader/cache"));
    assert!(!contains_shadercache(b""));
}

#[test]
fn slice_file_copies_exact_range() {
    let data = b"0123456789";
    let out = slice_file(data, 3, 4).unwrap();
    assert_eq!(out, b"3456");
    assert_eq!(out.len(), 4);
}

#[test]
fn slice_file_out_of_bounds_fails() {
    let data = b"0123456789";
    let e = slice_file(data, 8, 5).unwrap_err();
    assert!(matches!(e, Error::InvalidFormat { .. }));
}

#[test]
fn commands_carries_plain_values() {
    let c = bundle::cli::Commands {
        input: "game".to_string(),
        output: "out".to_string(),
        shaders: Some(false),
        threads: Some(4),
        filter: Some("*.txt".to_string()),
        debug: "INFO".to_string(),
    };
    assert_eq!(c.input, "game");
    assert!(matches!(c.shaders, Some(false)));
    assert_eq!(c.filter.as_deref(), Some("*.txt"));
}

#[test]
fn sliced_files_match_their_ranges() {
    // Planned writes against a known payload: every slice equals the range
    // its record names.
    let data: Vec<u8> = (0u8..100).collect();
    let records = [(0u32, 10u32), (10, 25), (90, 10)];
    for (off, size) in records {
        let out = slice_file(&data, off, size).unwrap();
        assert_eq!(out, &data[off as usize..(off + size) as usize]);
        assert_eq!(out.len(), size as usize);
    }
}
