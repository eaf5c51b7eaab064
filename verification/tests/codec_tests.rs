use excel_to_parquet::codec::{json_string, meta_from_json, meta_to_json};
use excel_to_parquet::types::{CacheMeta, FileStamp, RunMode};

fn stamp(path: &str, size: u64, mtime: i64, hash: &str) -> FileStamp {
    FileStamp {
        path: path.to_string(),
        size,
        mtime_unix_ms: mtime,
        quick_hash: hash.to_string(),
    }
}

fn meta(mode: RunMode, stamps: Vec<FileStamp>) -> CacheMeta {
    CacheMeta {
        dataset: "orders".to_string(),
        mode,
        stamps,
    }
}

#[test]
fn manifest_document_layout() {
    let m = meta(RunMode::Single, vec![stamp("in/a.xlsx", 10, 42, "h1")]);
    let text = meta_to_json(&m);
    let expected = "{\n  \"dataset\": \"orders\",\n  \"mode\": \"Single\",\n  \"stamps\": {\n    \"in/a.xlsx\": {\n      \"path\": \"in/a.xlsx\",\n      \"size\": 10,\n      \"mtime_unix_ms\": 42,\n      \"quick_hash\": \"h1\"\n    }\n  }\n}";
    assert_eq!(text, expected);
}

#[test]
fn empty_manifest_document() {
    let m = meta(RunMode::Multi, vec![]);
    let text = meta_to_json(&m);
    assert_eq!(
        text,
        "{\n  \"dataset\": \"orders\",\n  \"mode\": \"Multi\",\n  \"stamps\": {}\n}"
    );
}

#[test]
fn manifest_round_trips() {
    let m = meta(
        RunMode::Multi,
        vec![
            stamp("in/a.xlsx", 10, 42, "h1"),
            stamp("in/b.xlsx", 20, -5, "h2"),
        ],
    );
    let text = meta_to_json(&m);
    let back = meta_from_json(&text).expect("canonical document must parse");
    assert_eq!(back.dataset, "orders");
    assert_eq!(back.mode, RunMode::Multi);
    assert_eq!(back.stamps.len(), 2);
    assert_eq!(back.stamps[0].path, "in/a.xlsx");
    assert_eq!(back.stamps[0].size, 10);
    assert_eq!(back.stamps[0].mtime_unix_ms, 42);
    assert_eq!(back.stamps[0].quick_hash, "h1");
    assert_eq!(back.stamps[1].mtime_unix_ms, -5);
}

#[test]
fn escapes_round_trip() {
    let tricky = "C:\\data\\\"x\"\t\n\u{1}end";
    let m = meta(RunMode::Single, vec![stamp(tricky, 1, 2, "h")]);
    let text = meta_to_json(&m);
    let back = meta_from_json(&text).expect("escaped document must parse");
    assert_eq!(back.stamps[0].path, tricky);
}

#[test]
fn string_escaping_matches_json() {
    assert_eq!(json_string("a\\b"), "\"a\\\\b\"");
    assert_eq!(json_string("say \"hi\""), "\"say \\\"hi\\\"\"");
    assert_eq!(json_string("a\tb\nc"), "\"a\\tb\\nc\"");
    assert_eq!(json_string("\u{1}"), "\"\\u0001\"");
    assert_eq!(json_string("\u{1f}"), "\"\\u001f\"");
}

#[test]
fn emitted_document_is_valid_json() {
    let m = meta(
        RunMode::Multi,
        vec![stamp("in\\a \"quoted\".xlsx", 7, 9, "hash")],
    );
    let text = meta_to_json(&m);
    let v: serde_json::Value = serde_json::from_str(&text).expect("valid JSON");
    assert_eq!(v["dataset"], "orders");
    assert_eq!(v["mode"], "Multi");
    assert_eq!(v["stamps"]["in\\a \"quoted\".xlsx"]["size"], 7);
    assert_eq!(v["stamps"]["in\\a \"quoted\".xlsx"]["mtime_unix_ms"], 9);
    assert_eq!(v["stamps"]["in\\a \"quoted\".xlsx"]["quick_hash"], "hash");
}

#[test]
fn corrupt_documents_are_rejected() {
    assert!(meta_from_json("").is_none());
    assert!(meta_from_json("{}").is_none());
    assert!(meta_from_json("not json at all").is_none());
    let m = meta(RunMode::Single, vec![stamp("a", 1, 2, "h")]);
    let text = meta_to_json(&m);
    assert!(meta_from_json(&text[..text.len() - 1]).is_none());
    let tampered = text.replace("\"size\": 1", "\"size\": 01");
    assert!(meta_from_json(&tampered).is_none());
}

#[test]
fn non_canonical_whitespace_is_rejected() {
    // Only the canonical rendering parses; a reformatted document is
    // treated as corrupt and the manifest as absent, which forces a
    // rebuild and self-heals.
    let m = meta(RunMode::Single, vec![stamp("a", 1, 2, "h")]);
    let text = meta_to_json(&m);
    let spaced = text.replace("\"size\": 1", "\"size\":  1");
    assert!(meta_from_json(&spaced).is_none());
}

#[test]
fn duplicate_stamp_keys_are_rejected() {
    let m = meta(
        RunMode::Single,
        vec![stamp("a", 1, 2, "h"), stamp("b", 3, 4, "h2")],
    );
    let text = meta_to_json(&m).replace("\"b\"", "\"a\"").replace(
        "\"path\": \"b\"",
        "\"path\": \"a\"",
    );
    assert!(meta_from_json(&text).is_none());
}
