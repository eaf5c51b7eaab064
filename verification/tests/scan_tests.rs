use excel_to_parquet::scan::{
    accept_file_name, build_run_plan, dataset_dir, make_stamp, parse_dataset_folder_name,
    parse_mode, pick_newest, single_needs_extract, sort_paths, str_le, PlanError, ScanEntry,
};
use excel_to_parquet::types::RunMode;

fn entry(path: &str, mtime: i64) -> ScanEntry {
    ScanEntry {
        path: path.to_string(),
        mtime_unix_ms: mtime,
    }
}

#[test]
fn workbook_names_are_accepted() {
    assert!(accept_file_name("report.xlsx"));
    assert!(accept_file_name("report.XLSX"));
    assert!(accept_file_name("report.xlsb"));
    assert!(accept_file_name("a.b.xlsx"));
}

#[test]
fn other_names_are_rejected() {
    assert!(!accept_file_name("report.csv"));
    assert!(!accept_file_name("~$report.xlsx"));
    assert!(!accept_file_name(".xlsx"));
    assert!(!accept_file_name("xlsx"));
    assert!(!accept_file_name("report.xls"));
    assert!(!accept_file_name(""));
}

#[test]
fn newest_entry_wins_and_first_of_ties_is_kept() {
    let entries = vec![entry("a", 10), entry("b", 30), entry("c", 30), entry("d", 20)];
    assert_eq!(pick_newest(&entries).as_deref(), Some("b"));
    let empty: Vec<ScanEntry> = vec![];
    assert_eq!(pick_newest(&empty), None);
}

#[test]
fn paths_sort_lexicographically() {
    let v = vec![
        "b.xlsx".to_string(),
        "a2.xlsx".to_string(),
        "a10.xlsx".to_string(),
        "a.xlsx".to_string(),
    ];
    let out = sort_paths(&v);
    assert_eq!(out, vec!["a.xlsx", "a10.xlsx", "a2.xlsx", "b.xlsx"]);
}

#[test]
fn string_order_is_by_code_point() {
    assert!(str_le("a", "b"));
    assert!(str_le("a", "a"));
    assert!(str_le("a", "ab"));
    assert!(!str_le("ab", "a"));
    assert!(str_le("A", "a"));
}

#[test]
fn dataset_folder_names_parse() {
    assert_eq!(
        parse_dataset_folder_name("orders_single"),
        Some(("orders".to_string(), RunMode::Single))
    );
    assert_eq!(
        parse_dataset_folder_name("orders_multi"),
        Some(("orders".to_string(), RunMode::Multi))
    );
    assert_eq!(
        parse_dataset_folder_name("  orders _multi "),
        Some(("orders".to_string(), RunMode::Multi))
    );
    assert_eq!(parse_dataset_folder_name("_single"), None);
    assert_eq!(parse_dataset_folder_name("_multi"), None);
    assert_eq!(parse_dataset_folder_name("orders"), None);
}

#[test]
fn dataset_dir_joins_suffix() {
    assert_eq!(dataset_dir("/in", "ds", RunMode::Single), "/in/ds_single");
    assert_eq!(dataset_dir("/in", "ds", RunMode::Multi), "/in/ds_multi");
}

#[test]
fn mode_parses_case_insensitively() {
    assert_eq!(parse_mode("multi"), RunMode::Multi);
    assert_eq!(parse_mode("MULTI"), RunMode::Multi);
    assert_eq!(parse_mode("single"), RunMode::Single);
    assert_eq!(parse_mode("anything"), RunMode::Single);
}

#[test]
fn single_plan_picks_newest() {
    let entries = vec![entry("a.xlsx", 1), entry("b.xlsx", 9)];
    let plan = build_run_plan("ds", RunMode::Single, &entries).unwrap();
    assert_eq!(plan.dataset, "ds");
    assert_eq!(plan.mode, RunMode::Single);
    assert_eq!(plan.files, vec!["b.xlsx"]);
}

#[test]
fn multi_plan_sorts_every_file() {
    let entries = vec![entry("b.xlsx", 1), entry("a.xlsx", 9)];
    let plan = build_run_plan("ds", RunMode::Multi, &entries).unwrap();
    assert_eq!(plan.files, vec!["a.xlsx", "b.xlsx"]);
}

#[test]
fn empty_scan_fails_per_mode() {
    let empty: Vec<ScanEntry> = vec![];
    assert_eq!(
        build_run_plan("ds", RunMode::Single, &empty).unwrap_err(),
        PlanError::NoStableInput
    );
    assert_eq!(
        build_run_plan("ds", RunMode::Multi, &empty).unwrap_err(),
        PlanError::NoInputFiles
    );
}

#[test]
fn stamp_hashes_head_and_tail_with_blake3() {
    let head = vec![1u8, 2, 3];
    let tail = vec![4u8, 5];
    let st = make_stamp("a.xlsx", 5, 77, true, &head, &tail);
    assert_eq!(st.path, "a.xlsx");
    assert_eq!(st.size, 5);
    assert_eq!(st.mtime_unix_ms, 77);
    let mut hasher = blake3::Hasher::new();
    hasher.update(&head);
    hasher.update(&tail);
    let expected = hasher.finalize().to_hex().to_string();
    assert_eq!(st.quick_hash, expected);
    assert_eq!(st.quick_hash.len(), 64);
}

#[test]
fn failed_hash_read_yields_sentinel() {
    let st = make_stamp("a.xlsx", 5, 77, false, &vec![], &vec![]);
    assert_eq!(st.quick_hash, "ERR");
}

#[test]
fn single_reuse_condition() {
    assert!(!single_needs_extract(0, false));
    assert!(single_needs_extract(1, false));
    assert!(single_needs_extract(0, true));
}
