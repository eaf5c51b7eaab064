use excel_to_parquet::cells::Cell;
use excel_to_parquet::header::{dedup_headers, header_names, sanitize_col_name};

#[test]
fn sanitize_replaces_non_alphanumerics() {
    assert_eq!(sanitize_col_name("Order ID"), "Order_ID");
    assert_eq!(sanitize_col_name("a-b.c"), "a_b_c");
    assert_eq!(sanitize_col_name("Qty"), "Qty");
    assert_eq!(sanitize_col_name(""), "");
}

#[test]
fn sanitize_keeps_unicode_letters() {
    assert_eq!(sanitize_col_name("prix€"), "prix_");
    assert_eq!(sanitize_col_name("café"), "café");
}

#[test]
fn dedup_appends_occurrence_index() {
    let cols = vec![
        "a".to_string(),
        "b".to_string(),
        "a".to_string(),
        "a".to_string(),
    ];
    let out = dedup_headers(&cols);
    assert_eq!(out, vec!["a", "b", "a_1", "a_2"]);
}

#[test]
fn dedup_keeps_unique_names_bare() {
    let cols = vec!["x".to_string(), "y".to_string()];
    assert_eq!(dedup_headers(&cols), vec!["x", "y"]);
}

#[test]
fn header_names_fill_empty_cells_by_position() {
    let header = vec![
        Cell::Text("Order ID".to_string()),
        Cell::Empty,
        Cell::Text("  ".to_string()),
        Cell::Text("Qty".to_string()),
    ];
    let out = header_names(&header);
    assert_eq!(out, vec!["Order_ID", "col_1", "col_2", "Qty"]);
}

#[test]
fn header_names_are_distinct_after_dedup() {
    let header = vec![
        Cell::Text("Amount".to_string()),
        Cell::Text("Amount".to_string()),
        Cell::Text("Amount (net)".to_string()),
    ];
    let out = header_names(&header);
    assert_eq!(out, vec!["Amount", "Amount_1", "Amount__net_"]);
    for i in 0..out.len() {
        for j in 0..out.len() {
            if i != j {
                assert_ne!(out[i], out[j]);
            }
        }
    }
}

#[test]
fn numeric_suffix_collision_is_the_known_boundary() {
    // Base names of the form `name_<k>` can collide with the names the
    // deduplication appends; the uniqueness law excludes exactly this
    // family of rows.
    let cols = vec!["a_1".to_string(), "a".to_string(), "a".to_string()];
    let out = dedup_headers(&cols);
    assert_eq!(out, vec!["a_1", "a", "a_1"]);
}

#[test]
fn numeric_header_cells_become_text_names() {
    let header = vec![Cell::Int(2024), Cell::Bool(true)];
    let out = header_names(&header);
    assert_eq!(out, vec!["2024", "true"]);
}
