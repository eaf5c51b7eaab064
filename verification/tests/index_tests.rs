use excel_to_parquet::index::{load_tsv_map, tsv_render, PathMap};

#[test]
fn map_insert_get_and_overwrite() {
    let mut m = PathMap::new();
    assert_eq!(m.len(), 0);
    assert!(m.get("a").is_none());
    m.insert("a".to_string(), "a.parquet".to_string());
    m.insert("b".to_string(), "b.parquet".to_string());
    assert_eq!(m.get("a").map(|s| s.as_str()), Some("a.parquet"));
    assert_eq!(m.get("b").map(|s| s.as_str()), Some("b.parquet"));
    m.insert("a".to_string(), "a2.parquet".to_string());
    assert_eq!(m.get("a").map(|s| s.as_str()), Some("a2.parquet"));
    assert_eq!(m.len(), 2);
}

#[test]
fn map_remove_leaves_others_untouched() {
    let mut m = PathMap::new();
    m.insert("a".to_string(), "1".to_string());
    m.insert("b".to_string(), "2".to_string());
    m.remove("a");
    assert!(m.get("a").is_none());
    assert_eq!(m.get("b").map(|s| s.as_str()), Some("2"));
    m.remove("missing");
    assert_eq!(m.get("b").map(|s| s.as_str()), Some("2"));
}

#[test]
fn persisted_text_is_sorted_by_path() {
    let mut m = PathMap::new();
    m.insert("b".to_string(), "2".to_string());
    m.insert("a".to_string(), "1".to_string());
    let entries = m.sorted_entries();
    let text = tsv_render(&entries);
    assert_eq!(text, "a\t1\nb\t2\n");
}

#[test]
fn tsv_round_trips() {
    let mut m = PathMap::new();
    m.insert("in/x.xlsx".to_string(), "x.parquet".to_string());
    m.insert("in/y.xlsx".to_string(), "y.parquet".to_string());
    let text = tsv_render(&m.sorted_entries());
    let back = load_tsv_map(&text);
    assert_eq!(back.get("in/x.xlsx").map(|s| s.as_str()), Some("x.parquet"));
    assert_eq!(back.get("in/y.xlsx").map(|s| s.as_str()), Some("y.parquet"));
    assert_eq!(back.len(), 2);
}

#[test]
fn malformed_lines_are_ignored() {
    let text = "\n  \nnotab\na\tb\n\tmissingkey\nmissingvalue\t\n  c \t d \n";
    let m = load_tsv_map(text);
    assert_eq!(m.get("a").map(|s| s.as_str()), Some("b"));
    assert_eq!(m.get("c").map(|s| s.as_str()), Some("d"));
    assert_eq!(m.len(), 2);
    assert!(m.get("notab").is_none());
}

#[test]
fn later_duplicate_key_wins() {
    let m = load_tsv_map("a\told\na\tnew\n");
    assert_eq!(m.get("a").map(|s| s.as_str()), Some("new"));
    assert_eq!(m.len(), 1);
}

#[test]
fn unterminated_last_line_still_parses() {
    let m = load_tsv_map("a\tb");
    assert_eq!(m.get("a").map(|s| s.as_str()), Some("b"));
}

#[test]
fn empty_text_gives_empty_map() {
    let m = load_tsv_map("");
    assert_eq!(m.len(), 0);
}
