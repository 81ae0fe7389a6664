use explorer_core::apply::{df_slice, df_slice_by_indices, df_slice_by_series, grouped_apply};
use explorer_core::draws::make_draw_table;
use explorer_core::error::ExplorerError;
use explorer_core::group::df_group_indices;
use explorer_core::pivot::df_pivot_wider;
use explorer_core::sample::{df_sample_frac, df_sample_n};
use explorer_core::table::{df_from_series, df_names, df_n_rows, Column, Table};
use explorer_core::table_ops::slice_rows;
use explorer_core::value::Value;

use rand::distributions::Distribution;
use rand_chacha::rand_core::SeedableRng;
use rand_chacha::ChaCha12Rng;
use statrs::distribution::Uniform;

fn icol(name: &str, vals: &[i64]) -> Column {
    Column {
        name: String::from(name),
        values: vals.iter().map(|v| Value::Int(*v)).collect(),
    }
}

fn scol(name: &str, vals: &[&str]) -> Column {
    Column {
        name: String::from(name),
        values: vals.iter().map(|v| Value::Str(String::from(*v))).collect(),
    }
}

fn tbl(cols: Vec<Column>) -> Table {
    df_from_series(cols).expect("well-formed table")
}

fn same_cells(a: &Table, b: &Table) {
    assert_eq!(a.columns.len(), b.columns.len());
    for (ca, cb) in a.columns.iter().zip(b.columns.iter()) {
        assert_eq!(ca.name, cb.name);
        assert_eq!(ca.values.len(), cb.values.len());
        for (va, vb) in ca.values.iter().zip(cb.values.iter()) {
            assert!(va.eq_value(vb));
        }
    }
}

#[test]
fn group_indices_follow_first_seen_order() {
    let t = tbl(vec![scol("g", &["y", "x", "y"]), icol("v", &[1, 2, 3])]);
    let parts = df_group_indices(&t, &vec![String::from("g")]).unwrap();
    assert_eq!(parts, vec![vec![0usize, 2], vec![1usize]]);
}

#[test]
fn group_indices_need_existing_columns() {
    let t = tbl(vec![scol("g", &["y"])]);
    let r = df_group_indices(&t, &vec![String::from("zz")]);
    assert!(matches!(r, Err(ExplorerError::ColumnNotFound(_))));
}

#[test]
fn grouped_first_row_keeps_first_seen_group_order() {
    let t = tbl(vec![scol("g", &["y", "x", "y"]), icol("v", &[1, 2, 3])]);
    let r = df_slice(t, 0, 1, &vec![String::from("g")]).unwrap();
    assert_eq!(df_n_rows(&r), 2);
    assert!(r.columns[0].values[0].eq_value(&Value::Str(String::from("y"))));
    assert!(r.columns[1].values[0].eq_value(&Value::Int(1)));
    assert!(r.columns[0].values[1].eq_value(&Value::Str(String::from("x"))));
    assert!(r.columns[1].values[1].eq_value(&Value::Int(2)));
}

#[test]
fn empty_group_list_applies_transform_once() {
    let t = tbl(vec![icol("v", &[5, 6, 7])]);
    let direct = slice_rows(&t, 0, 2);
    let through = grouped_apply(
        tbl(vec![icol("v", &[5, 6, 7])]),
        &Vec::new(),
        |tt: Table| Ok(slice_rows(&tt, 0, 2)),
    )
    .unwrap();
    same_cells(&direct, &through);
}

#[test]
fn grouped_slice_offsets_inside_each_group() {
    let t = tbl(vec![scol("g", &["a", "a", "b", "b"]), icol("v", &[1, 2, 3, 4])]);
    let r = df_slice(t, 1, 1, &vec![String::from("g")]).unwrap();
    assert_eq!(df_n_rows(&r), 2);
    assert!(r.columns[1].values[0].eq_value(&Value::Int(2)));
    assert!(r.columns[1].values[1].eq_value(&Value::Int(4)));
}

#[test]
fn take_by_positions_within_groups() {
    let t = tbl(vec![scol("g", &["a", "b", "a", "b"]), icol("v", &[1, 2, 3, 4])]);
    let r = df_slice_by_indices(t, vec![1], &vec![String::from("g")]).unwrap();
    assert_eq!(df_n_rows(&r), 2);
    assert!(r.columns[1].values[0].eq_value(&Value::Int(3)));
    assert!(r.columns[1].values[1].eq_value(&Value::Int(4)));
}

#[test]
fn series_of_positions_must_be_non_negative() {
    let t = tbl(vec![icol("v", &[1, 2, 3])]);
    let idx = Column { name: String::from("i"), values: vec![Value::Int(-1)] };
    let r = df_slice_by_series(t, &idx, &Vec::new());
    assert!(matches!(r, Err(ExplorerError::InvalidIndices)));
}

#[test]
fn series_of_positions_selects_rows() {
    let t = tbl(vec![icol("v", &[10, 20, 30])]);
    let idx = Column {
        name: String::from("i"),
        values: vec![Value::Int(2), Value::Int(0)],
    };
    let r = df_slice_by_series(t, &idx, &Vec::new()).unwrap();
    assert!(r.columns[0].values[0].eq_value(&Value::Int(30)));
    assert!(r.columns[0].values[1].eq_value(&Value::Int(10)));
}

#[test]
fn pivot_wider_basic_scenario() {
    let t = tbl(vec![
        icol("id", &[1, 1, 2]),
        scol("key", &["a", "b", "a"]),
        icol("val", &[10, 20, 30]),
    ]);
    let r = df_pivot_wider(
        &t,
        &vec![String::from("id")],
        &String::from("key"),
        &vec![String::from("val")],
        &None,
    )
    .unwrap();
    assert_eq!(
        df_names(&r),
        vec![String::from("id"), String::from("a"), String::from("b")]
    );
    assert_eq!(df_n_rows(&r), 2);
    assert!(r.columns[0].values[0].eq_value(&Value::Int(1)));
    assert!(r.columns[0].values[1].eq_value(&Value::Int(2)));
    assert!(r.columns[1].values[0].eq_value(&Value::Int(10)));
    assert!(r.columns[1].values[1].eq_value(&Value::Int(30)));
    assert!(r.columns[2].values[0].eq_value(&Value::Int(20)));
    assert!(r.columns[2].values[1].eq_value(&Value::Null));
}

#[test]
fn pivot_wider_names_are_deterministic() {
    let make = || {
        let t = tbl(vec![
            icol("id", &[1, 1, 2]),
            scol("key", &["a", "b", "a"]),
            icol("val", &[10, 20, 30]),
        ]);
        let r = df_pivot_wider(
            &t,
            &vec![String::from("id")],
            &String::from("key"),
            &vec![String::from("val")],
            &Some(String::from("p_")),
        )
        .unwrap();
        df_names(&r)
    };
    let first = make();
    let second = make();
    assert_eq!(first, second);
    assert_eq!(
        first,
        vec![String::from("id"), String::from("p_a"), String::from("p_b")]
    );
}

#[test]
fn pivot_key_colliding_with_id_gets_suffix() {
    let t = tbl(vec![
        icol("id", &[1, 2]),
        scol("key", &["id", "id"]),
        icol("val", &[10, 20]),
    ]);
    let r = df_pivot_wider(
        &t,
        &vec![String::from("id")],
        &String::from("key"),
        &vec![String::from("val")],
        &None,
    )
    .unwrap();
    assert_eq!(df_names(&r), vec![String::from("id"), String::from("id_1")]);
}

#[test]
fn pivot_null_key_becomes_nil_column() {
    let t = tbl(vec![
        icol("id", &[1]),
        Column { name: String::from("key"), values: vec![Value::Null] },
        icol("val", &[10]),
    ]);
    let r = df_pivot_wider(
        &t,
        &vec![String::from("id")],
        &String::from("key"),
        &vec![String::from("val")],
        &None,
    )
    .unwrap();
    assert_eq!(df_names(&r), vec![String::from("id"), String::from("nil")]);
}

#[test]
fn pivot_missing_column_is_refused() {
    let t = tbl(vec![icol("id", &[1]), scol("key", &["a"]), icol("val", &[10])]);
    let r = df_pivot_wider(
        &t,
        &vec![String::from("zz")],
        &String::from("key"),
        &vec![String::from("val")],
        &None,
    );
    assert!(matches!(r, Err(ExplorerError::ColumnNotFound(_))));
}

#[test]
fn pivot_float_key_is_refused() {
    let t = tbl(vec![
        icol("id", &[1]),
        Column { name: String::from("key"), values: vec![Value::Float(0u64)] },
        icol("val", &[10]),
    ]);
    let r = df_pivot_wider(
        &t,
        &vec![String::from("id")],
        &String::from("key"),
        &vec![String::from("val")],
        &None,
    );
    assert!(matches!(r, Err(ExplorerError::UnsupportedPivotKey)));
}

#[test]
fn zero_draws_give_two_empty_columns() {
    let t = make_draw_table(Vec::new());
    assert_eq!(df_n_rows(&t), 0);
    assert_eq!(df_names(&t), vec![String::from("draw"), String::from("x")]);
}

#[test]
fn draw_table_pairs_indices_with_values() {
    let t = make_draw_table(vec![11u64, 22u64, 33u64]);
    assert_eq!(df_n_rows(&t), 3);
    assert!(t.columns[0].values[2].eq_value(&Value::UInt(2)));
    assert!(t.columns[1].values[1].eq_value(&Value::Float(22)));
}

#[test]
fn uniform_draws_are_reproducible_for_a_seed() {
    let draw3 = || {
        let dist = Uniform::new(0.0, 1.0).unwrap();
        let mut rng = ChaCha12Rng::seed_from_u64(42);
        let bits: Vec<u64> = (0..3).map(|_| dist.sample(&mut rng).to_bits()).collect();
        make_draw_table(bits)
    };
    let a = draw3();
    let b = draw3();
    assert_eq!(df_n_rows(&a), 3);
    same_cells(&a, &b);
}

#[test]
fn sample_n_draws_requested_rows() {
    let t = tbl(vec![icol("v", &[1, 2, 3, 4, 5])]);
    let r = df_sample_n(t, 3, false, false, Some(7), &Vec::new()).unwrap();
    assert_eq!(df_n_rows(&r), 3);
}

#[test]
fn sample_n_is_repeatable_for_a_seed() {
    let make = || {
        let t = tbl(vec![icol("v", &[1, 2, 3, 4, 5])]);
        df_sample_n(t, 3, false, true, Some(9), &Vec::new()).unwrap()
    };
    same_cells(&make(), &make());
}

#[test]
fn sample_n_refuses_oversized_requests() {
    let t = tbl(vec![icol("v", &[1, 2])]);
    let r = df_sample_n(t, 3, false, false, Some(1), &Vec::new());
    assert!(matches!(r, Err(ExplorerError::SampleTooLarge)));
}

#[test]
fn grouped_sampling_reuses_the_seed_per_group() {
    let t = tbl(vec![
        scol("g", &["a", "a", "a", "b", "b", "b"]),
        icol("v", &[1, 2, 3, 4, 5, 6]),
    ]);
    let r = df_sample_n(t, 2, false, false, Some(5), &vec![String::from("g")]).unwrap();
    assert_eq!(df_n_rows(&r), 4);
    // Equal-sized groups with one seed draw the same relative pattern.
    let first_rel = (0..2)
        .map(|i| match &r.columns[1].values[i] {
            Value::Int(v) => *v - 1,
            _ => unreachable!(),
        })
        .collect::<Vec<i64>>();
    let second_rel = (2..4)
        .map(|i| match &r.columns[1].values[i] {
            Value::Int(v) => *v - 4,
            _ => unreachable!(),
        })
        .collect::<Vec<i64>>();
    assert_eq!(first_rel, second_rel);
}

#[test]
fn sample_frac_scales_each_group() {
    let t = tbl(vec![icol("v", &[1, 2, 3, 4])]);
    let r = df_sample_frac(t, 1, 2, false, false, Some(3), &Vec::new()).unwrap();
    assert_eq!(df_n_rows(&r), 2);
}

#[test]
fn sample_frac_refuses_zero_denominator() {
    let t = tbl(vec![icol("v", &[1])]);
    let r = df_sample_frac(t, 1, 0, false, false, None, &Vec::new());
    assert!(matches!(r, Err(ExplorerError::InvalidParameters)));
}

#[test]
fn sort_by_orders_rows() {
    let t = tbl(vec![icol("v", &[3, 1, 2])]);
    let r = explorer_core::sort::df_sort_by(
        t,
        &vec![String::from("v")],
        &vec![false],
        true,
        false,
        false,
        &Vec::new(),
    )
    .unwrap();
    assert!(r.columns[0].values[0].eq_value(&Value::Int(1)));
    assert!(r.columns[0].values[1].eq_value(&Value::Int(2)));
    assert!(r.columns[0].values[2].eq_value(&Value::Int(3)));
}

#[test]
fn sort_by_descending_with_nulls_last() {
    let t = tbl(vec![Column {
        name: String::from("v"),
        values: vec![Value::Int(2), Value::Null, Value::Int(5)],
    }]);
    let r = explorer_core::sort::df_sort_by(
        t,
        &vec![String::from("v")],
        &vec![true],
        true,
        false,
        true,
        &Vec::new(),
    )
    .unwrap();
    assert!(r.columns[0].values[0].eq_value(&Value::Int(5)));
    assert!(r.columns[0].values[1].eq_value(&Value::Int(2)));
    assert!(r.columns[0].values[2].eq_value(&Value::Null));
}

#[test]
fn sort_by_keeps_tied_rows_in_order() {
    let t = tbl(vec![
        icol("k", &[1, 1, 0]),
        scol("p", &["a", "b", "c"]),
    ]);
    let r = explorer_core::sort::df_sort_by(
        t,
        &vec![String::from("k")],
        &vec![false],
        true,
        false,
        false,
        &Vec::new(),
    )
    .unwrap();
    assert!(r.columns[1].values[0].eq_value(&Value::Str(String::from("c"))));
    assert!(r.columns[1].values[1].eq_value(&Value::Str(String::from("a"))));
    assert!(r.columns[1].values[2].eq_value(&Value::Str(String::from("b"))));
}

#[test]
fn sort_by_within_groups_keeps_group_order() {
    let t = tbl(vec![scol("g", &["b", "a", "b"]), icol("v", &[2, 9, 1])]);
    let r = explorer_core::sort::df_sort_by(
        t,
        &vec![String::from("v")],
        &vec![false],
        true,
        false,
        false,
        &vec![String::from("g")],
    )
    .unwrap();
    assert!(r.columns[0].values[0].eq_value(&Value::Str(String::from("b"))));
    assert!(r.columns[1].values[0].eq_value(&Value::Int(1)));
    assert!(r.columns[1].values[1].eq_value(&Value::Int(2)));
    assert!(r.columns[0].values[2].eq_value(&Value::Str(String::from("a"))));
    assert!(r.columns[1].values[2].eq_value(&Value::Int(9)));
}

#[test]
fn sort_by_refuses_mismatched_directions() {
    let t = tbl(vec![icol("v", &[1]), icol("w", &[2])]);
    let r = explorer_core::sort::df_sort_by(
        t,
        &vec![String::from("v"), String::from("w")],
        &vec![false, true, false],
        true,
        false,
        false,
        &Vec::new(),
    );
    assert!(matches!(r, Err(ExplorerError::InvalidParameters)));
}

#[test]
fn pivot_with_two_value_columns_prefixes_their_names() {
    let t = tbl(vec![
        icol("id", &[1]),
        scol("key", &["a"]),
        icol("v1", &[10]),
        icol("v2", &[20]),
    ]);
    let r = df_pivot_wider(
        &t,
        &vec![String::from("id")],
        &String::from("key"),
        &vec![String::from("v1"), String::from("v2")],
        &None,
    )
    .unwrap();
    assert_eq!(
        df_names(&r),
        vec![String::from("id"), String::from("v1_a"), String::from("v2_a")]
    );
    assert!(r.columns[1].values[0].eq_value(&Value::Int(10)));
    assert!(r.columns[2].values[0].eq_value(&Value::Int(20)));
}

#[test]
fn failing_group_aborts_the_whole_operation() {
    // The second group has a single row; asking two rows of it without
    // replacement fails, and the whole grouped sample surfaces that error.
    let t = tbl(vec![
        scol("g", &["a", "a", "b"]),
        icol("v", &[1, 2, 3]),
    ]);
    let r = df_sample_n(t, 2, false, false, Some(1), &vec![String::from("g")]);
    assert!(matches!(r, Err(ExplorerError::SampleTooLarge)));
}

#[test]
fn grouped_sampling_with_replacement_draws_per_group() {
    let t = tbl(vec![
        scol("g", &["a", "b", "a"]),
        icol("v", &[1, 2, 3]),
    ]);
    let r = df_sample_n(t, 3, true, false, Some(2), &vec![String::from("g")]).unwrap();
    assert_eq!(df_n_rows(&r), 6);
}

#[test]
fn grouped_take_past_a_group_end_is_out_of_bounds() {
    // The second group holds a single row, so position 1 overruns it.
    let t = tbl(vec![scol("g", &["a", "a", "b"]), icol("v", &[1, 2, 3])]);
    let r = df_slice_by_indices(t, vec![1], &vec![String::from("g")]);
    assert!(matches!(r, Err(ExplorerError::IndexOutOfBounds)));
}

#[test]
fn valid_series_past_the_end_is_out_of_bounds() {
    let t = tbl(vec![icol("v", &[1, 2])]);
    let idx = Column { name: String::from("i"), values: vec![Value::Int(2)] };
    let r = df_slice_by_series(t, &idx, &Vec::new());
    assert!(matches!(r, Err(ExplorerError::IndexOutOfBounds)));
}

#[test]
fn sort_by_key_columns_orders_by_the_side_car_keys() {
    let t = tbl(vec![scol("name", &["p", "q", "r"])]);
    let keys = vec![Column {
        name: String::from("k"),
        values: vec![Value::Int(3), Value::Int(1), Value::Int(2)],
    }];
    let r = explorer_core::sort::df_sort_by_key_columns(
        t,
        &keys,
        &vec![false],
        true,
        false,
        false,
        &Vec::new(),
    )
    .unwrap();
    assert!(r.columns[0].values[0].eq_value(&Value::Str(String::from("q"))));
    assert!(r.columns[0].values[1].eq_value(&Value::Str(String::from("r"))));
    assert!(r.columns[0].values[2].eq_value(&Value::Str(String::from("p"))));
}

#[test]
fn sort_by_key_columns_within_groups() {
    let t = tbl(vec![scol("g", &["b", "a", "b"]), icol("v", &[10, 20, 30])]);
    let keys = vec![Column {
        name: String::from("k"),
        values: vec![Value::Int(2), Value::Int(0), Value::Int(1)],
    }];
    let r = explorer_core::sort::df_sort_by_key_columns(
        t,
        &keys,
        &vec![false],
        true,
        false,
        false,
        &vec![String::from("g")],
    )
    .unwrap();
    // Group order stays first-seen (b then a); inside b, keys 2 and 1 swap the rows.
    assert!(r.columns[1].values[0].eq_value(&Value::Int(30)));
    assert!(r.columns[1].values[1].eq_value(&Value::Int(10)));
    assert!(r.columns[1].values[2].eq_value(&Value::Int(20)));
}

#[test]
fn sort_by_no_key_columns_changes_nothing() {
    let t = tbl(vec![icol("v", &[3, 1, 2])]);
    let r = explorer_core::sort::df_sort_by_key_columns(
        t,
        &Vec::new(),
        &Vec::new(),
        true,
        false,
        false,
        &Vec::new(),
    )
    .unwrap();
    assert!(r.columns[0].values[0].eq_value(&Value::Int(3)));
    assert!(r.columns[0].values[1].eq_value(&Value::Int(1)));
    assert!(r.columns[0].values[2].eq_value(&Value::Int(2)));
}
