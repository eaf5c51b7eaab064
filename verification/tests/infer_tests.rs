use excel_to_parquet::cells::{
    cell_to_text, fill_slot, infer_col_types, merge_type, row_slots, Cell, ColType, FloatCell,
    FloatVal, Slot,
};

fn float_cell(f: f64) -> Cell {
    let int_like = f.is_finite() && f.fract() == 0.0;
    let in_i64 = f >= (i64::MIN as f64) && f <= (i64::MAX as f64);
    Cell::Float(FloatCell {
        bits: f.to_bits(),
        int_like,
        in_i64,
        trunc: if int_like && in_i64 { f as i64 } else { 0 },
        text: format!("{}", f),
    })
}

#[test]
fn merge_lattice_basics() {
    assert_eq!(merge_type(ColType::Unknown, &Cell::Empty), ColType::Unknown);
    assert_eq!(merge_type(ColType::Unknown, &Cell::Int(3)), ColType::Int);
    assert_eq!(merge_type(ColType::Unknown, &Cell::Bool(true)), ColType::Bool);
    assert_eq!(
        merge_type(ColType::Unknown, &Cell::Text("x".to_string())),
        ColType::Text
    );
    assert_eq!(
        merge_type(ColType::Unknown, &Cell::Text("   ".to_string())),
        ColType::Unknown
    );
}

#[test]
fn merge_int_and_float() {
    assert_eq!(merge_type(ColType::Int, &float_cell(2.0)), ColType::Int);
    assert_eq!(merge_type(ColType::Int, &float_cell(2.5)), ColType::Double);
    assert_eq!(merge_type(ColType::Unknown, &float_cell(1.5)), ColType::Double);
    assert_eq!(merge_type(ColType::Double, &Cell::Int(1)), ColType::Double);
}

#[test]
fn merge_bool_with_numbers_degrades_to_text() {
    assert_eq!(merge_type(ColType::Bool, &Cell::Int(1)), ColType::Text);
    assert_eq!(merge_type(ColType::Int, &Cell::Bool(false)), ColType::Text);
    assert_eq!(merge_type(ColType::Bool, &float_cell(1.0)), ColType::Text);
}

#[test]
fn merge_other_kinds_are_text() {
    assert_eq!(
        merge_type(ColType::Unknown, &Cell::Other("2024-01-01".to_string())),
        ColType::Text
    );
}

#[test]
fn infer_over_rows_with_finalize() {
    let rows = vec![
        vec![Cell::Int(1), float_cell(2.5), Cell::Empty],
        vec![float_cell(3.0), Cell::Int(4), Cell::Empty],
    ];
    let types = infer_col_types(&rows, 3, 200);
    assert_eq!(types, vec![ColType::Int, ColType::Double, ColType::Text]);
}

#[test]
fn infer_respects_row_limit() {
    let rows = vec![
        vec![Cell::Int(1)],
        vec![Cell::Text("late".to_string())],
    ];
    let types = infer_col_types(&rows, 1, 1);
    assert_eq!(types, vec![ColType::Int]);
    let types = infer_col_types(&rows, 1, 2);
    assert_eq!(types, vec![ColType::Text]);
}

#[test]
fn infer_short_rows_leave_missing_columns_alone() {
    let rows = vec![vec![Cell::Int(7)]];
    let types = infer_col_types(&rows, 2, 200);
    assert_eq!(types, vec![ColType::Int, ColType::Text]);
}

#[test]
fn int_slot_accepts_integral_float_within_bounds() {
    let row = vec![float_cell(41.0)];
    match fill_slot(ColType::Int, &row, 0) {
        Slot::Int(v) => assert_eq!(v, Some(41)),
        other => panic!("unexpected slot {:?}", other),
    }
}

#[test]
fn int_slot_rejects_fractional_float() {
    let row = vec![float_cell(41.5)];
    match fill_slot(ColType::Int, &row, 0) {
        Slot::Int(v) => assert_eq!(v, None),
        other => panic!("unexpected slot {:?}", other),
    }
}

#[test]
fn int_slot_rejects_out_of_range_float() {
    let row = vec![float_cell(1.0e30)];
    match fill_slot(ColType::Int, &row, 0) {
        Slot::Int(v) => assert_eq!(v, None),
        other => panic!("unexpected slot {:?}", other),
    }
}

#[test]
fn bool_slot_never_parses_text() {
    let row = vec![Cell::Text("true".to_string())];
    match fill_slot(ColType::Bool, &row, 0) {
        Slot::Bool(v) => assert_eq!(v, None),
        other => panic!("unexpected slot {:?}", other),
    }
}

#[test]
fn double_slot_widens_integers() {
    let row = vec![Cell::Int(5)];
    match fill_slot(ColType::Double, &row, 0) {
        Slot::Float(Some(FloatVal::FromInt(v))) => assert_eq!(v, 5),
        other => panic!("unexpected slot {:?}", other),
    }
}

#[test]
fn missing_cells_fill_null_or_empty() {
    let row: Vec<Cell> = vec![];
    match fill_slot(ColType::Text, &row, 0) {
        Slot::Text(t) => assert_eq!(t, ""),
        other => panic!("unexpected slot {:?}", other),
    }
    match fill_slot(ColType::Int, &row, 0) {
        Slot::Int(v) => assert_eq!(v, None),
        other => panic!("unexpected slot {:?}", other),
    }
}

#[test]
fn row_slots_follow_column_types() {
    let types = vec![ColType::Text, ColType::Int, ColType::Bool];
    let row = vec![
        Cell::Text("  hi  ".to_string()),
        Cell::Int(9),
        Cell::Bool(true),
    ];
    let slots = row_slots(&row, &types);
    assert_eq!(slots.len(), 3);
    match &slots[0] {
        Slot::Text(t) => assert_eq!(t, "hi"),
        other => panic!("unexpected slot {:?}", other),
    }
    match &slots[1] {
        Slot::Int(v) => assert_eq!(*v, Some(9)),
        other => panic!("unexpected slot {:?}", other),
    }
    match &slots[2] {
        Slot::Bool(v) => assert_eq!(*v, Some(true)),
        other => panic!("unexpected slot {:?}", other),
    }
}

#[test]
fn int_column_from_sample_never_takes_fractions() {
    // The sample sees only integral values, so the column is Int;
    // a fractional float in a later (unsampled) row loads as NULL
    // rather than corrupting the column.
    let sample = vec![vec![Cell::Int(1)], vec![float_cell(2.0)]];
    let types = infer_col_types(&sample, 1, 2);
    assert_eq!(types, vec![ColType::Int]);
    let late_row = vec![float_cell(3.5)];
    match fill_slot(types[0], &late_row, 0) {
        Slot::Int(v) => assert_eq!(v, None),
        other => panic!("unexpected slot {:?}", other),
    }
}

#[test]
fn cell_text_coercions() {
    assert_eq!(cell_to_text(&Cell::Empty), "");
    assert_eq!(cell_to_text(&Cell::Bool(true)), "true");
    assert_eq!(cell_to_text(&Cell::Bool(false)), "false");
    assert_eq!(cell_to_text(&Cell::Int(-42)), "-42");
    assert_eq!(cell_to_text(&Cell::Int(0)), "0");
    assert_eq!(cell_to_text(&Cell::Text("  pad  ".to_string())), "pad");
    assert_eq!(cell_to_text(&float_cell(2.5)), "2.5");
}
