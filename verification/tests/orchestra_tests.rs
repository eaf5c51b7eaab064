use excel_to_parquet::autotune::auto_tune_multi;
use excel_to_parquet::cache::diff_files;
use excel_to_parquet::hw::{detect_hw, DiskKind};
use excel_to_parquet::index::PathMap;
use excel_to_parquet::naming::{build_parquet_name, TimeFields};
use excel_to_parquet::orchestra::{
    apply_results, decide_rebuild, finalize_meta, multi_deletions, remove_keys, required_targets,
    run_exit_code, should_heavy_first, should_write_manifest, sort_stamps_desc, sweep_plan,
    workers_for, AliveModes, SweepAction,
};
use excel_to_parquet::types::{CacheMeta, FileStamp, RunMode};

fn stamp(path: &str, size: u64, mtime: i64, hash: &str) -> FileStamp {
    FileStamp {
        path: path.to_string(),
        size,
        mtime_unix_ms: mtime,
        quick_hash: hash.to_string(),
    }
}

fn fields() -> TimeFields {
    TimeFields {
        year: 2024,
        month: 1,
        day: 2,
        hour: 3,
        minute: 4,
        second: 5,
    }
}

#[test]
fn heavy_first_for_dominant_file() {
    // 45 MB, 10 MB, 8 MB: the largest passes the absolute threshold.
    let sorted = vec![
        stamp("big", 45 * 1024 * 1024, 0, "h"),
        stamp("mid", 10 * 1024 * 1024, 0, "h"),
        stamp("small", 8 * 1024 * 1024, 0, "h"),
    ];
    assert!(should_heavy_first(&sorted));
}

#[test]
fn heavy_first_for_relative_dominance() {
    let sorted = vec![stamp("a", 3_000_000, 0, "h"), stamp("b", 2_000_000, 0, "h")];
    assert!(should_heavy_first(&sorted));
    let sorted = vec![stamp("a", 2_500_000, 0, "h"), stamp("b", 2_000_000, 0, "h")];
    assert!(!should_heavy_first(&sorted));
}

#[test]
fn heavy_first_needs_two_files() {
    let sorted = vec![stamp("a", 99 * 1024 * 1024, 0, "h")];
    assert!(!should_heavy_first(&sorted));
}

#[test]
fn changed_files_sort_largest_first() {
    let v = vec![stamp("a", 5, 0, "h"), stamp("b", 50, 0, "h"), stamp("c", 20, 0, "h")];
    let out = sort_stamps_desc(&v);
    let sizes: Vec<u64> = out.iter().map(|s| s.size).collect();
    assert_eq!(sizes, vec![50, 20, 5]);
}

#[test]
fn multi_with_three_files_on_four_core_ssd() {
    // A 4-core, 16 GiB SSD machine with three changed inputs of
    // 45/10/8 MB: heavy-first engages and two workers run the rest;
    // at two workers each job keeps the Single-run engine budget.
    let hw = detect_hw(4, 16384, DiskKind::Ssd);
    let changed = vec![
        stamp("in/a.xlsx", 45 * 1024 * 1024, 0, "h"),
        stamp("in/b.xlsx", 10 * 1024 * 1024, 0, "h"),
        stamp("in/c.xlsx", 8 * 1024 * 1024, 0, "h"),
    ];
    let sorted = sort_stamps_desc(&changed);
    assert!(should_heavy_first(&sorted));
    assert_eq!(sorted[0].path, "in/a.xlsx");
    let tuned = auto_tune_multi(&hw, changed.len());
    assert_eq!(tuned.workers, 2);
    assert_eq!(tuned.duckdb_threads_per_job, 4);
    assert_eq!(workers_for(tuned.workers, None, 2), 2);
    assert_eq!(workers_for(tuned.workers, Some(8), 2), 2);
    assert_eq!(workers_for(tuned.workers, Some(0), 2), 1);
}

#[test]
fn cold_single_run_builds_and_records() {
    // Cold start: no manifest, one input; the diff demands a build and
    // the next manifest records the stamp.
    let cur = vec![stamp("ds_single/foo.xlsx", 100, 42, "h1")];
    let (next, changed) = diff_files(None, "ds", RunMode::Single, &cur);
    assert_eq!(changed.len(), 1);
    let name = build_parquet_name("foo", &fields(), 42);
    assert_eq!(name, "foo_02012024_030405_42.parquet");
    assert_eq!(next.stamps.len(), 1);
    assert_eq!(next.stamps[0].path, "ds_single/foo.xlsx");
    // Re-run over the recorded manifest: nothing changed, the pointer
    // target exists, so nothing is rebuilt.
    let (_, changed2) = diff_files(Some(next), "ds", RunMode::Single, &cur);
    assert!(changed2.is_empty());
    let rebuilt = decide_rebuild(changed2, true, &cur);
    assert!(rebuilt.is_empty());
}

#[test]
fn modified_single_input_is_rebuilt_under_new_name() {
    let cur = vec![stamp("ds_single/foo.xlsx", 100, 42, "h1")];
    let (prev, _) = diff_files(None, "ds", RunMode::Single, &cur);
    // The file is rewritten: new mtime, new content hash.
    let cur2 = vec![stamp("ds_single/foo.xlsx", 101, 43, "h2")];
    let (next, changed) = diff_files(Some(prev), "ds", RunMode::Single, &cur2);
    assert_eq!(changed.len(), 1);
    let old_name = build_parquet_name("foo", &fields(), 42);
    let new_name = build_parquet_name("foo", &fields(), 43);
    assert_ne!(old_name, new_name);
    assert_eq!(next.stamps[0].quick_hash, "h2");
}

#[test]
fn multi_deletion_removes_only_the_deleted_input() {
    let prev = CacheMeta {
        dataset: "ds".to_string(),
        mode: RunMode::Multi,
        stamps: vec![
            stamp("in/a.xlsx", 1, 1, "ha"),
            stamp("in/b.xlsx", 2, 2, "hb"),
            stamp("in/c.xlsx", 3, 3, "hc"),
        ],
    };
    let cur = vec![stamp("in/a.xlsx", 1, 1, "ha"), stamp("in/c.xlsx", 3, 3, "hc")];
    let deleted = multi_deletions(&prev, &cur);
    assert_eq!(deleted, vec!["in/b.xlsx"]);
    let mut map = PathMap::new();
    map.insert("in/a.xlsx".to_string(), "a.parquet".to_string());
    map.insert("in/b.xlsx".to_string(), "b.parquet".to_string());
    map.insert("in/c.xlsx".to_string(), "c.parquet".to_string());
    remove_keys(&mut map, &deleted);
    assert!(map.get("in/b.xlsx").is_none());
    assert_eq!(map.get("in/a.xlsx").map(|s| s.as_str()), Some("a.parquet"));
    assert_eq!(map.get("in/c.xlsx").map(|s| s.as_str()), Some("c.parquet"));
    // The survivors are unchanged, so nothing is rebuilt.
    let (next, changed) = diff_files(Some(prev), "ds", RunMode::Multi, &cur);
    assert!(changed.is_empty());
    assert_eq!(next.stamps.len(), 2);
}

#[test]
fn missing_output_forces_full_rebuild() {
    // The manifest says clean, but the persisted map is gone: the
    // integrity gate fails and every current input is rebuilt.
    let cur = vec![stamp("in/a.xlsx", 1, 1, "ha"), stamp("in/b.xlsx", 2, 2, "hb")];
    let (prev, _) = diff_files(None, "ds", RunMode::Multi, &cur);
    let (_, changed) = diff_files(Some(prev), "ds", RunMode::Multi, &cur);
    assert!(changed.is_empty());
    let empty_map = PathMap::new();
    let targets = required_targets(&empty_map, &cur);
    assert!(targets.is_none());
    let rebuilt = decide_rebuild(changed, false, &cur);
    assert_eq!(rebuilt.len(), 2);
}

#[test]
fn gate_passes_when_every_input_is_mapped() {
    let cur = vec![stamp("in/a.xlsx", 1, 1, "ha")];
    let mut map = PathMap::new();
    map.insert("in/a.xlsx".to_string(), "a.parquet".to_string());
    let targets = required_targets(&map, &cur).unwrap();
    assert_eq!(targets, vec!["a.parquet"]);
    let mut map2 = PathMap::new();
    map2.insert("other".to_string(), "o.parquet".to_string());
    assert!(required_targets(&map2, &cur).is_none());
}

#[test]
fn partial_failure_records_successes_and_retries_the_rest() {
    let cur = vec![
        stamp("in/a.xlsx", 1, 1, "ha"),
        stamp("in/b.xlsx", 2, 2, "hb"),
        stamp("in/c.xlsx", 3, 3, "hc"),
    ];
    let (next, changed) = diff_files(None, "ds", RunMode::Multi, &cur);
    assert_eq!(changed.len(), 3);
    let results = vec![
        ("in/a.xlsx".to_string(), Ok("a.parquet".to_string())),
        ("in/b.xlsx".to_string(), Err("corrupt workbook".to_string())),
        ("in/c.xlsx".to_string(), Ok("c.parquet".to_string())),
    ];
    let mut map = PathMap::new();
    let (ok_count, failures) = apply_results(&mut map, &results);
    assert_eq!(ok_count, 2);
    assert_eq!(failures.len(), 1);
    assert_eq!(failures[0].0, "in/b.xlsx");
    assert_eq!(failures[0].1, "corrupt workbook");
    assert_eq!(map.get("in/a.xlsx").map(|s| s.as_str()), Some("a.parquet"));
    assert!(map.get("in/b.xlsx").is_none());
    // The manifest is still written (there are new successes), but the
    // failed input's stamp is left out, so the next run retries it.
    assert!(should_write_manifest(ok_count, failures.len()));
    let failed_keys: Vec<String> = failures.iter().map(|f| f.0.clone()).collect();
    let meta = finalize_meta(next, &failed_keys);
    assert_eq!(meta.stamps.len(), 2);
    assert!(meta.stamps.iter().all(|s| s.path != "in/b.xlsx"));
    assert_eq!(run_exit_code(false, failures.len()), 2);
    let (_, changed2) = diff_files(Some(meta), "ds", RunMode::Multi, &cur);
    assert_eq!(changed2.len(), 1);
    assert_eq!(changed2[0].path, "in/b.xlsx");
}

#[test]
fn fully_failed_run_keeps_the_manifest() {
    assert!(!should_write_manifest(0, 3));
    assert!(should_write_manifest(0, 0));
    assert_eq!(run_exit_code(true, 0), 1);
    assert_eq!(run_exit_code(false, 0), 0);
}

#[test]
fn sweeper_removes_orphans_and_stale_modes() {
    let children = vec!["gone".to_string(), "partial".to_string(), "both".to_string()];
    let alive = vec![
        AliveModes {
            dataset: "partial".to_string(),
            has_single: true,
            has_multi: false,
        },
        AliveModes {
            dataset: "both".to_string(),
            has_single: true,
            has_multi: true,
        },
    ];
    let plan = sweep_plan(&children, &alive);
    assert_eq!(plan.len(), 2);
    match &plan[0] {
        SweepAction::RemoveDataset(name) => assert_eq!(name, "gone"),
        other => panic!("unexpected action {:?}", other),
    }
    match &plan[1] {
        SweepAction::RemoveModeDir(name, mode) => {
            assert_eq!(name, "partial");
            assert_eq!(*mode, RunMode::Multi);
        },
        other => panic!("unexpected action {:?}", other),
    }
}
