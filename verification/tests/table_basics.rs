use explorer_core::error::ExplorerError;
use explorer_core::combine::{df_concat_columns, df_nil_count};
use explorer_core::table::{df_from_series, df_names, df_n_rows, df_pull, df_select_at_idx, df_shape, df_width, Column, Table};
use explorer_core::table_ops::{concat_rows, df_drop, df_mask, df_put_column, df_take, slice_rows};
use explorer_core::value::Value;

fn col_int(name: &str, vals: &[i64]) -> Column {
    Column {
        name: String::from(name),
        values: vals.iter().map(|v| Value::Int(*v)).collect(),
    }
}

fn col_str(name: &str, vals: &[&str]) -> Column {
    Column {
        name: String::from(name),
        values: vals.iter().map(|v| Value::Str(String::from(*v))).collect(),
    }
}

fn table(cols: Vec<Column>) -> Table {
    df_from_series(cols).expect("well-formed table")
}

fn cell_eq(a: &Value, b: &Value) -> bool {
    a.eq_value(b)
}

fn assert_same_table(a: &Table, b: &Table) {
    assert_eq!(a.columns.len(), b.columns.len());
    for (ca, cb) in a.columns.iter().zip(b.columns.iter()) {
        assert_eq!(ca.name, cb.name);
        assert_eq!(ca.values.len(), cb.values.len());
        for (va, vb) in ca.values.iter().zip(cb.values.iter()) {
            assert!(cell_eq(va, vb));
        }
    }
}

#[test]
fn builds_and_reads_back() {
    let t = table(vec![col_int("a", &[1, 2, 3]), col_str("b", &["x", "y", "z"])]);
    assert_eq!(df_names(&t), vec![String::from("a"), String::from("b")]);
    assert_eq!(df_n_rows(&t), 3);
    assert_eq!(df_width(&t), 2);
    assert_eq!(df_shape(&t), (3, 2));
}

#[test]
fn duplicate_names_are_refused() {
    let r = df_from_series(vec![col_int("a", &[1]), col_int("a", &[2])]);
    assert!(matches!(r, Err(ExplorerError::DuplicateColumnName(_))));
}

#[test]
fn unequal_lengths_are_refused() {
    let r = df_from_series(vec![col_int("a", &[1, 2]), col_int("b", &[3])]);
    assert!(matches!(r, Err(ExplorerError::LengthMismatch)));
}

#[test]
fn pull_and_missing_column() {
    let t = table(vec![col_int("a", &[7, 8])]);
    let c = df_pull(&t, &String::from("a")).unwrap();
    assert!(cell_eq(&c.values[0], &Value::Int(7)));
    let missing = df_pull(&t, &String::from("zz"));
    assert!(matches!(missing, Err(ExplorerError::ColumnNotFound(_))));
}

#[test]
fn select_at_idx_in_and_out_of_range() {
    let t = table(vec![col_int("a", &[1]), col_int("b", &[2])]);
    assert_eq!(df_select_at_idx(&t, 1).unwrap().name, String::from("b"));
    assert!(df_select_at_idx(&t, 2).is_none());
}

#[test]
fn drop_removes_one_column() {
    let t = table(vec![col_int("a", &[1]), col_int("b", &[2]), col_int("c", &[3])]);
    let r = df_drop(&t, &String::from("b")).unwrap();
    assert_eq!(df_names(&r), vec![String::from("a"), String::from("c")]);
    assert!(matches!(
        df_drop(&t, &String::from("zz")),
        Err(ExplorerError::ColumnNotFound(_))
    ));
}

#[test]
fn put_column_replaces_or_appends() {
    let t = table(vec![col_int("a", &[1, 2])]);
    let replaced = df_put_column(&t, col_int("a", &[9, 9])).unwrap();
    assert!(cell_eq(&replaced.columns[0].values[0], &Value::Int(9)));
    let appended = df_put_column(&t, col_int("b", &[5, 6])).unwrap();
    assert_eq!(df_width(&appended), 2);
    let bad = df_put_column(&t, col_int("b", &[5]));
    assert!(matches!(bad, Err(ExplorerError::LengthMismatch)));
}

#[test]
fn mask_keeps_true_rows_and_drops_null() {
    let t = table(vec![col_int("a", &[10, 20, 30])]);
    let mask = Column {
        name: String::from("m"),
        values: vec![Value::Bool(true), Value::Null, Value::Bool(false)],
    };
    let r = df_mask(&t, &mask).unwrap();
    assert_eq!(df_n_rows(&r), 1);
    assert!(cell_eq(&r.columns[0].values[0], &Value::Int(10)));
}

#[test]
fn mask_refuses_non_boolean_cells() {
    let t = table(vec![col_int("a", &[10])]);
    let mask = Column { name: String::from("m"), values: vec![Value::Int(1)] };
    assert!(matches!(df_mask(&t, &mask), Err(ExplorerError::NotABooleanMask)));
}

#[test]
fn take_checks_bounds() {
    let t = table(vec![col_int("a", &[10, 20, 30])]);
    let picked = df_take(&t, &vec![2usize, 0]).unwrap();
    assert!(cell_eq(&picked.columns[0].values[0], &Value::Int(30)));
    assert!(cell_eq(&picked.columns[0].values[1], &Value::Int(10)));
    assert!(matches!(df_take(&t, &vec![3usize]), Err(ExplorerError::IndexOutOfBounds)));
}

#[test]
fn slice_clamps_and_counts_from_end() {
    let t = table(vec![col_int("a", &[1, 2, 3, 4, 5])]);
    let s = slice_rows(&t, 1, 2);
    assert_eq!(df_n_rows(&s), 2);
    assert!(cell_eq(&s.columns[0].values[0], &Value::Int(2)));
    let tail = slice_rows(&t, -2, 10);
    assert_eq!(df_n_rows(&tail), 2);
    assert!(cell_eq(&tail.columns[0].values[0], &Value::Int(4)));
}

#[test]
fn concat_rows_requires_equal_schemas() {
    let a = table(vec![col_int("a", &[1])]);
    let b = table(vec![col_int("a", &[2])]);
    let stacked = concat_rows(&a, &b).unwrap();
    assert_eq!(df_n_rows(&stacked), 2);
    let c = table(vec![col_int("zz", &[2])]);
    assert!(matches!(concat_rows(&a, &c), Err(ExplorerError::SchemaMismatch)));
}

#[test]
fn concat_columns_renames_second_use() {
    let a = table(vec![col_int("a", &[1]), col_int("b", &[2])]);
    let b = table(vec![col_int("a", &[3])]);
    let joined = df_concat_columns(&vec![a, b]).unwrap();
    assert_eq!(
        df_names(&joined),
        vec![String::from("a"), String::from("b"), String::from("a_1")]
    );
}

#[test]
fn nil_count_counts_missing_cells() {
    let t = table(vec![Column {
        name: String::from("a"),
        values: vec![Value::Null, Value::Int(1), Value::Null],
    }]);
    let counts = df_nil_count(&t);
    assert_eq!(df_n_rows(&counts), 1);
    assert!(cell_eq(&counts.columns[0].values[0], &Value::UInt(2)));
}

#[test]
fn slice_with_no_groups_matches_plain_slice() {
    let t = table(vec![col_int("a", &[1, 2, 3, 4])]);
    let direct = slice_rows(&t, 1, 2);
    let through = explorer_core::apply::df_slice(
        table(vec![col_int("a", &[1, 2, 3, 4])]),
        1,
        2,
        &Vec::new(),
    )
    .unwrap();
    assert_same_table(&direct, &through);
}

#[test]
fn decimal_rendering_is_exact() {
    assert_eq!(explorer_core::num_str::u64_to_dec_string(0), String::from("0"));
    assert_eq!(explorer_core::num_str::u64_to_dec_string(7), String::from("7"));
    assert_eq!(
        explorer_core::num_str::u64_to_dec_string(90105),
        String::from("90105")
    );
}

#[test]
fn concat_columns_refuses_unequal_heights() {
    let a = table(vec![col_int("a", &[1, 2])]);
    let b = table(vec![col_int("b", &[3])]);
    let r = df_concat_columns(&vec![a, b]);
    assert!(matches!(r, Err(ExplorerError::LengthMismatch)));
}

#[test]
fn transpose_turns_rows_into_columns() {
    let t = table(vec![col_int("a", &[1, 2]), col_int("b", &[3, 4])]);
    let r = explorer_core::combine::df_transpose(
        &t,
        &Some(String::from("name")),
        &None,
    )
    .unwrap();
    assert_eq!(
        df_names(&r),
        vec![
            String::from("name"),
            String::from("column_0"),
            String::from("column_1")
        ]
    );
    assert!(cell_eq(&r.columns[0].values[0], &Value::Str(String::from("a"))));
    assert!(cell_eq(&r.columns[1].values[0], &Value::Int(1)));
    assert!(cell_eq(&r.columns[1].values[1], &Value::Int(3)));
    assert!(cell_eq(&r.columns[2].values[1], &Value::Int(4)));
}

#[test]
fn transpose_checks_the_new_name_count() {
    let t = table(vec![col_int("a", &[1, 2])]);
    let r = explorer_core::combine::df_transpose(
        &t,
        &None,
        &Some(vec![String::from("only_one")]),
    );
    assert!(matches!(r, Err(ExplorerError::LengthMismatch)));
}
