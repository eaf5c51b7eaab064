use excel_to_parquet::cache::{cache_file_path, diff_files, join_path, mode_dir};
use excel_to_parquet::types::{CacheMeta, FileStamp, RunMode};

fn stamp(path: &str, size: u64, mtime: i64, hash: &str) -> FileStamp {
    FileStamp {
        path: path.to_string(),
        size,
        mtime_unix_ms: mtime,
        quick_hash: hash.to_string(),
    }
}

#[test]
fn first_run_reports_everything_changed() {
    let cur = vec![stamp("a.xlsx", 10, 100, "h1"), stamp("b.xlsx", 20, 200, "h2")];
    let (next, changed) = diff_files(None, "ds", RunMode::Multi, &cur);
    assert_eq!(next.dataset, "ds");
    assert_eq!(next.mode, RunMode::Multi);
    assert_eq!(next.stamps.len(), 2);
    assert_eq!(changed.len(), 2);
    assert_eq!(changed[0].path, "a.xlsx");
    assert_eq!(changed[1].path, "b.xlsx");
}

#[test]
fn unchanged_inputs_are_not_rebuilt() {
    let cur = vec![stamp("a.xlsx", 10, 100, "h1")];
    let (next, _) = diff_files(None, "ds", RunMode::Multi, &cur);
    let (_, changed) = diff_files(Some(next), "ds", RunMode::Multi, &cur);
    assert!(changed.is_empty());
}

#[test]
fn size_change_is_detected() {
    let prev = CacheMeta {
        dataset: "ds".to_string(),
        mode: RunMode::Multi,
        stamps: vec![stamp("a.xlsx", 10, 100, "h1"), stamp("b.xlsx", 20, 200, "h2")],
    };
    let cur = vec![stamp("a.xlsx", 11, 100, "h1"), stamp("b.xlsx", 20, 200, "h2")];
    let (_, changed) = diff_files(Some(prev), "ds", RunMode::Multi, &cur);
    assert_eq!(changed.len(), 1);
    assert_eq!(changed[0].path, "a.xlsx");
}

#[test]
fn mtime_change_is_detected() {
    let prev = CacheMeta {
        dataset: "ds".to_string(),
        mode: RunMode::Multi,
        stamps: vec![stamp("a.xlsx", 10, 100, "h1")],
    };
    let cur = vec![stamp("a.xlsx", 10, 101, "h1")];
    let (_, changed) = diff_files(Some(prev), "ds", RunMode::Multi, &cur);
    assert_eq!(changed.len(), 1);
}

#[test]
fn hash_change_is_detected() {
    let prev = CacheMeta {
        dataset: "ds".to_string(),
        mode: RunMode::Multi,
        stamps: vec![stamp("a.xlsx", 10, 100, "h1")],
    };
    let cur = vec![stamp("a.xlsx", 10, 100, "h2")];
    let (_, changed) = diff_files(Some(prev), "ds", RunMode::Multi, &cur);
    assert_eq!(changed.len(), 1);
}

#[test]
fn unknown_hash_always_counts_as_changed() {
    let prev = CacheMeta {
        dataset: "ds".to_string(),
        mode: RunMode::Multi,
        stamps: vec![stamp("a.xlsx", 10, 100, "ERR")],
    };
    let cur = vec![stamp("a.xlsx", 10, 100, "ERR")];
    let (_, changed) = diff_files(Some(prev), "ds", RunMode::Multi, &cur);
    assert_eq!(changed.len(), 1);
}

#[test]
fn deleted_inputs_produce_no_changed_entries() {
    let prev = CacheMeta {
        dataset: "ds".to_string(),
        mode: RunMode::Multi,
        stamps: vec![stamp("a.xlsx", 10, 100, "h1"), stamp("b.xlsx", 20, 200, "h2")],
    };
    let cur = vec![stamp("a.xlsx", 10, 100, "h1")];
    let (next, changed) = diff_files(Some(prev), "ds", RunMode::Multi, &cur);
    assert!(changed.is_empty());
    assert_eq!(next.stamps.len(), 1);
    assert_eq!(next.stamps[0].path, "a.xlsx");
}

#[test]
fn cache_layout_paths() {
    assert_eq!(
        cache_file_path("/cache", "ds", RunMode::Single),
        "/cache/ds/single_cache.json"
    );
    assert_eq!(
        cache_file_path("/cache", "ds", RunMode::Multi),
        "/cache/ds/multi_cache.json"
    );
    assert_eq!(mode_dir("/cache", "ds", RunMode::Single), "/cache/ds/single");
    assert_eq!(mode_dir("/cache", "ds", RunMode::Multi), "/cache/ds/multi");
    assert_eq!(join_path("/cache/ds/multi", "daily"), "/cache/ds/multi/daily");
    assert_eq!(
        join_path("/cache/ds/multi", "parquet_map.tsv"),
        "/cache/ds/multi/parquet_map.tsv"
    );
}
