use puruda::column::Column;
use puruda::stats::map_column;
use puruda::table::Table;

fn real_text(x: f64) -> String {
    format!("{}", x)
}

// =============================================================================
// reindex
// =============================================================================
#[test]
fn reindex_reverses() {
    let df = Table::from_cols(vec![
        Column::from_ints(vec![10, 20, 30]),
        Column::from_reals(vec![real_text(1.0), real_text(2.0), real_text(3.0)]).unwrap(),
    ])
    .unwrap();
    let reversed = df.reindex(&vec![2, 1, 0]).unwrap();
    assert_eq!(reversed.col(0).int_values(), vec![30, 20, 10]);
    let c2: Vec<f64> =
        reversed.col(1).real_values().iter().map(|x| x.parse::<f64>().unwrap()).collect();
    assert_eq!(c2, vec![3.0, 2.0, 1.0]);
}

#[test]
fn reindex_duplicates() {
    let df = Table::from_cols(vec![
        Column::from_ints(vec![10, 20, 30]),
        Column::from_reals(vec![real_text(1.0), real_text(2.0), real_text(3.0)]).unwrap(),
    ])
    .unwrap();
    let dup = df.reindex(&vec![0, 0, 2, 2]).unwrap();
    assert_eq!(dup.nrows(), 4);
    assert_eq!(dup.col(0).int_values(), vec![10, 10, 30, 30]);
}

#[test]
fn reindex_empty() {
    let df = Table::from_cols(vec![
        Column::from_ints(vec![1, 2, 3]),
        Column::from_ints(vec![4, 5, 6]),
    ])
    .unwrap();
    let empty = df.reindex(&vec![]).unwrap();
    assert_eq!(empty.nrows(), 0);
}

#[test]
fn reindex_rejects_out_of_range() {
    let df = Table::from_cols(vec![Column::from_ints(vec![1, 2, 3])]).unwrap();
    assert_eq!(df.reindex(&vec![0, 3]).unwrap_err(), puruda::DataError::OutOfRange);
}

// =============================================================================
// sort_by_col
// =============================================================================
#[test]
fn sort_by_c1_ascending() {
    let df = Table::from_cols(vec![
        Column::from_ints(vec![30, 10, 20]),
        Column::from_reals(vec![real_text(3.0), real_text(1.0), real_text(2.0)]).unwrap(),
    ])
    .unwrap();
    let sorted = df.sort_by_col(0).unwrap();
    assert_eq!(sorted.col(0).int_values(), vec![10, 20, 30]);
    let c2: Vec<f64> =
        sorted.col(1).real_values().iter().map(|x| x.parse::<f64>().unwrap()).collect();
    assert_eq!(c2, vec![1.0, 2.0, 3.0]);
}

#[test]
fn sort_by_c2_with_strings() {
    let df = Table::from_cols(vec![
        Column::from_ints(vec![3, 1, 2]),
        Column::from_strs(vec!["c".to_string(), "a".to_string(), "b".to_string()]),
    ])
    .unwrap();
    let sorted = df.sort_by_col(1).unwrap();
    assert_eq!(
        sorted.col(1).str_values(),
        vec!["a".to_string(), "b".to_string(), "c".to_string()]
    );
    assert_eq!(sorted.col(0).int_values(), vec![1, 2, 3]);
}

#[test]
fn sort_preserves_header() {
    let mut df = Table::from_cols(vec![
        Column::from_ints(vec![2, 1]),
        Column::from_ints(vec![20, 10]),
    ])
    .unwrap();
    df.set_header(vec!["a", "b"]).unwrap();
    let sorted = df.sort_by_col(0).unwrap();
    assert_eq!(sorted.header(), df.header());
}

#[test]
fn sort_already_sorted() {
    let df = Table::from_cols(vec![
        Column::from_ints(vec![1, 2, 3]),
        Column::from_ints(vec![10, 20, 30]),
    ])
    .unwrap();
    let sorted = df.sort_by_col(0).unwrap();
    assert_eq!(sorted.col(0).int_values(), vec![1, 2, 3]);
}

#[test]
fn sort_is_stable_on_ties() {
    // equal keys keep their original relative order, and the companion
    // column is carried by the same permutation
    let df = Table::from_cols(vec![
        Column::from_ints(vec![2, 1, 2, 1]),
        Column::from_strs(
            vec!["first2", "first1", "second2", "second1"]
                .into_iter()
                .map(|s| s.to_string())
                .collect(),
        ),
    ])
    .unwrap();
    let sorted = df.sort_by_col(0).unwrap();
    assert_eq!(sorted.col(0).int_values(), vec![1, 1, 2, 2]);
    assert_eq!(
        sorted.col(1).str_values(),
        vec![
            "first1".to_string(),
            "second1".to_string(),
            "first2".to_string(),
            "second2".to_string()
        ]
    );
}

#[test]
fn sort_rejects_real_key_column() {
    let df = Table::from_cols(vec![
        Column::from_reals(vec![real_text(2.0), real_text(1.0)]).unwrap(),
    ])
    .unwrap();
    assert_eq!(df.sort_by_col(0).unwrap_err(), puruda::DataError::ArityMismatch);
    assert_eq!(df.sort_by_col(5).unwrap_err(), puruda::DataError::OutOfRange);
}

// =============================================================================
// apply
// =============================================================================
#[test]
fn apply_doubles_values() {
    let mut df = Table::from_cols(vec![
        Column::from_ints(vec![1, 2, 3]),
        Column::from_reals(vec![real_text(10.0), real_text(20.0), real_text(30.0)]).unwrap(),
    ])
    .unwrap();
    let mut c = df.col(0).clone();
    c.apply_int(|x| x * 2);
    df.replace_col(0, c).unwrap();
    assert_eq!(df.col(0).int_values(), vec![2, 4, 6]);
}

#[test]
fn apply_on_floats() {
    let mut df = Table::from_cols(vec![
        Column::from_reals(vec![real_text(1.0), real_text(4.0), real_text(9.0)]).unwrap(),
    ])
    .unwrap();
    let mut c = df.col(0).clone();
    c.apply_real(|s: String| format!("{}", s.parse::<f64>().unwrap().sqrt())).unwrap();
    df.replace_col(0, c).unwrap();
    let vals: Vec<f64> = df.col(0).real_values().iter().map(|x| x.parse::<f64>().unwrap()).collect();
    assert!((vals[0] - 1.0f64).abs() < 1e-10);
    assert!((vals[1] - 2.0f64).abs() < 1e-10);
    assert!((vals[2] - 3.0f64).abs() < 1e-10);
}

#[test]
fn apply_on_strings() {
    let mut df = Table::from_cols(vec![
        Column::from_strs(vec!["hello".to_string(), "world".to_string()]),
    ])
    .unwrap();
    let mut c = df.col(0).clone();
    c.apply_str(|s: String| s.to_uppercase());
    df.replace_col(0, c).unwrap();
    assert_eq!(df.col(0).str_values(), vec!["HELLO".to_string(), "WORLD".to_string()]);
}

// =============================================================================
// map_column
// =============================================================================
#[test]
fn map_column_type_conversion() {
    let df = Table::from_cols(vec![Column::from_ints(vec![1, 2, 3])]).unwrap();
    let mapped: Vec<f64> = map_column(&df.col(0).int_values(), |x: i64| x as f64 * 1.5);
    assert!((mapped[0] - 1.5).abs() < 1e-10);
    assert!((mapped[1] - 3.0).abs() < 1e-10);
    assert!((mapped[2] - 4.5).abs() < 1e-10);
}

#[test]
fn map_column_to_string() {
    let df = Table::from_cols(vec![Column::from_ints(vec![10, 20, 30])]).unwrap();
    let labels: Vec<String> = map_column(&df.col(0).int_values(), |x: i64| format!("val_{}", x));
    assert_eq!(labels, vec!["val_10", "val_20", "val_30"]);
}

// =============================================================================
// unique
// =============================================================================
#[test]
fn unique_preserves_order() {
    let v = Column::from_ints(vec![3, 1, 2, 1, 3, 2, 4]);
    assert_eq!(v.unique().int_values(), vec![3, 1, 2, 4]);
}

#[test]
fn n_unique_count() {
    let v = Column::from_ints(vec![1, 1, 2, 2, 3]);
    assert_eq!(v.n_unique(), 3);
}

#[test]
fn unique_all_same() {
    let v = Column::from_ints(vec![7, 7, 7, 7]);
    assert_eq!(v.unique().int_values(), vec![7]);
    assert_eq!(v.n_unique(), 1);
}

#[test]
fn unique_strings() {
    let v = Column::from_strs(vec![
        "a".to_string(),
        "b".to_string(),
        "a".to_string(),
        "c".to_string(),
    ]);
    assert_eq!(v.unique().str_values(), vec!["a".to_string(), "b".to_string(), "c".to_string()]);
    assert_eq!(v.n_unique(), 3);
}

#[test]
fn unique_empty() {
    let v = Column::from_ints(vec![]);
    assert_eq!(v.unique().int_values(), Vec::<i64>::new());
    assert_eq!(v.n_unique(), 0);
}
