use excel_to_parquet::cells::ColType;
use excel_to_parquet::config::{ComputedColumn, Dataset, TransformConfig};
use excel_to_parquet::sqlgen::{
    build_select_clause, build_sql, build_where_clause, copy_sql, create_final_sql,
    create_table_sql, default_query, drop_final_sql, engine_type_name, legacy_copy_sql,
    legacy_thread_budget, pragma_threads_sql, transform_query, SqlError,
};

#[test]
fn type_names_match_engine_types() {
    assert_eq!(engine_type_name(ColType::Bool), "BOOLEAN");
    assert_eq!(engine_type_name(ColType::Int), "BIGINT");
    assert_eq!(engine_type_name(ColType::Double), "DOUBLE");
    assert_eq!(engine_type_name(ColType::Text), "TEXT");
    assert_eq!(engine_type_name(ColType::Unknown), "TEXT");
}

#[test]
fn create_table_statement_is_exact() {
    let cols = vec!["Order_ID".to_string(), "Qty".to_string()];
    let types = vec![ColType::Text, ColType::Int];
    assert_eq!(
        create_table_sql(&cols, &types),
        "CREATE TABLE raw (\"Order_ID\" TEXT, \"Qty\" BIGINT)"
    );
}

#[test]
fn pragma_clamps_thread_budget() {
    assert_eq!(pragma_threads_sql(0), "PRAGMA threads=1");
    assert_eq!(pragma_threads_sql(4), "PRAGMA threads=4");
    assert_eq!(pragma_threads_sql(99), "PRAGMA threads=32");
}

#[test]
fn default_query_reads_everything() {
    assert_eq!(default_query(), "SELECT * FROM raw");
}

#[test]
fn transform_projection_with_rename_and_computed() {
    let t = TransformConfig {
        select: Some(vec!["a".to_string(), "b".to_string()]),
        rename: vec![("b".to_string(), "beta".to_string())],
        filters: Some(vec!["a > 1".to_string(), "b < 9".to_string()]),
        computed: Some(vec![ComputedColumn {
            name: "c".to_string(),
            expr: "a + b".to_string(),
        }]),
        distinct: Some(true),
    };
    assert_eq!(
        transform_query(&t),
        "SELECT DISTINCT \"a\", \"b\" AS \"beta\", a + b AS \"c\" FROM raw WHERE a > 1 AND b < 9"
    );
}

#[test]
fn transform_without_select_uses_star() {
    let t = TransformConfig {
        select: None,
        rename: vec![],
        filters: None,
        computed: None,
        distinct: None,
    };
    assert_eq!(transform_query(&t), "SELECT * FROM raw");
}

#[test]
fn transform_empty_filter_list_adds_no_where() {
    let t = TransformConfig {
        select: Some(vec!["a".to_string()]),
        rename: vec![],
        filters: Some(vec![]),
        computed: None,
        distinct: None,
    };
    assert_eq!(transform_query(&t), "SELECT \"a\" FROM raw");
}

#[test]
fn materialize_and_emit_statements() {
    assert_eq!(
        create_final_sql("SELECT * FROM raw"),
        "CREATE TABLE t AS SELECT * FROM raw"
    );
    assert_eq!(drop_final_sql(), "DROP TABLE IF EXISTS t");
    assert_eq!(
        copy_sql("C:\\out\\x.parquet"),
        "COPY t TO 'C:/out/x.parquet' (FORMAT PARQUET, COMPRESSION SNAPPY)"
    );
    assert_eq!(
        copy_sql("/tmp/x.parquet"),
        "COPY t TO '/tmp/x.parquet' (FORMAT PARQUET, COMPRESSION SNAPPY)"
    );
}

fn dataset(kind: &str, distinct: Option<bool>) -> Dataset {
    Dataset {
        name: "orders".to_string(),
        input_folder: "in".to_string(),
        output_file: "out.parquet".to_string(),
        dataset_type: kind.to_string(),
        select: Some(vec!["a".to_string()]),
        rename: vec![("a".to_string(), "alpha".to_string())],
        computed: Some(vec!["a * 2 AS twice".to_string()]),
        filters: Some(vec!["a IS NOT NULL".to_string()]),
        distinct,
    }
}

#[test]
fn legacy_select_clause_collects_all_columns() {
    let d = dataset("orders_single", None);
    assert_eq!(build_select_clause(&d), "a, a AS alpha, a * 2 AS twice");
}

#[test]
fn legacy_select_clause_defaults_to_star() {
    let mut d = dataset("orders_single", None);
    d.select = None;
    d.rename = vec![];
    d.computed = None;
    assert_eq!(build_select_clause(&d), "*");
}

#[test]
fn legacy_where_clause() {
    let d = dataset("orders_single", None);
    assert_eq!(build_where_clause(&d), "WHERE a IS NOT NULL");
    let mut d2 = dataset("orders_single", None);
    d2.filters = None;
    assert_eq!(build_where_clause(&d2), "");
}

#[test]
fn legacy_sql_single_form() {
    let d = dataset("orders_single", None);
    let files = vec!["in/a.xlsx".to_string()];
    assert_eq!(
        build_sql(&d, &files).unwrap(),
        "SELECT a, a AS alpha, a * 2 AS twice FROM read_excel_auto('in/a.xlsx') WHERE a IS NOT NULL"
    );
}

#[test]
fn legacy_sql_single_distinct() {
    let d = dataset("orders_single", Some(true));
    let files = vec!["in/a.xlsx".to_string()];
    let sql = build_sql(&d, &files).unwrap();
    assert!(sql.starts_with("SELECT DISTINCT a,"));
}

#[test]
fn legacy_sql_multi_unions_files() {
    let d = dataset("orders_multi", None);
    let files = vec!["in/a.xlsx".to_string(), "in/b.xlsx".to_string()];
    assert_eq!(
        build_sql(&d, &files).unwrap(),
        "SELECT a, a AS alpha, a * 2 AS twice FROM read_excel_auto('in/a.xlsx') WHERE a IS NOT NULL UNION ALL SELECT a, a AS alpha, a * 2 AS twice FROM read_excel_auto('in/b.xlsx') WHERE a IS NOT NULL"
    );
}

#[test]
fn legacy_sql_multi_distinct_wraps_union() {
    let d = dataset("orders_multi", Some(true));
    let files = vec!["in/a.xlsx".to_string()];
    let sql = build_sql(&d, &files).unwrap();
    assert!(sql.starts_with("SELECT DISTINCT * FROM ("));
    assert!(sql.ends_with(")"));
}

#[test]
fn legacy_sql_single_without_files_is_refused() {
    let d = dataset("orders_single", None);
    let files: Vec<String> = vec![];
    assert_eq!(build_sql(&d, &files), Err(SqlError::NoInputFile));
}

#[test]
fn legacy_thread_budget_rounds_up() {
    assert_eq!(legacy_thread_budget(10), 7);
    assert_eq!(legacy_thread_budget(4), 3);
    assert_eq!(legacy_thread_budget(1), 1);
    assert_eq!(legacy_thread_budget(0), 0);
}

#[test]
fn legacy_copy_statement() {
    assert_eq!(
        legacy_copy_sql("SELECT 1", "out.parquet"),
        "COPY (SELECT 1) TO 'out.parquet' (FORMAT PARQUET, COMPRESSION ZSTD)"
    );
}
