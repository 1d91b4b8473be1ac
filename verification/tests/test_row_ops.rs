use puruda::column::Column;
use puruda::table::Table;
use puruda::value::{Kind, Value};

fn real_text(x: f64) -> String {
    format!("{}", x)
}

// =============================================================================
// push_row
// =============================================================================
#[test]
fn push_row_appends() {
    let mut df = Table::from_cols(vec![
        Column::from_ints(vec![1, 2]),
        Column::from_reals(vec![real_text(10.0), real_text(20.0)]).unwrap(),
    ])
    .unwrap();
    df.push_row(vec![Value::Int(3), Value::real_from_text(real_text(30.0)).unwrap()]).unwrap();
    assert_eq!(df.nrows(), 3);
    assert_eq!(df.col(0).int_values(), vec![1, 2, 3]);
    let c2: Vec<f64> = df.col(1).real_values().iter().map(|x| x.parse::<f64>().unwrap()).collect();
    assert_eq!(c2, vec![10.0, 20.0, 30.0]);
}

#[test]
fn push_row_to_empty() {
    let mut df = Table::new(vec![Kind::Int, Kind::Int]);
    df.push_row(vec![Value::Int(1), Value::Int(2)]).unwrap();
    df.push_row(vec![Value::Int(3), Value::Int(4)]).unwrap();
    assert_eq!(df.nrows(), 2);
    assert_eq!(df.col(0).int_values(), vec![1, 3]);
}

#[test]
fn push_row_rejects_wrong_shape() {
    let mut df = Table::new(vec![Kind::Int, Kind::Int]);
    assert_eq!(df.push_row(vec![Value::Int(1)]).unwrap_err(), puruda::DataError::ArityMismatch);
    assert_eq!(
        df.push_row(vec![Value::Int(1), Value::Bool(true)]).unwrap_err(),
        puruda::DataError::ArityMismatch
    );
    assert_eq!(df.nrows(), 0);
}

// =============================================================================
// filter
// =============================================================================
#[test]
fn filter_basic() {
    let df = Table::from_cols(vec![
        Column::from_ints(vec![1, 2, 3, 4, 5]),
        Column::from_ints(vec![10, 20, 30, 40, 50]),
    ])
    .unwrap();
    let c1 = df.col(0).int_values();
    let filtered = df.filter(|i| c1[i] > 3);
    assert_eq!(filtered.nrows(), 2);
    assert_eq!(filtered.col(0).int_values(), vec![4, 5]);
    assert_eq!(filtered.col(1).int_values(), vec![40, 50]);
}

#[test]
fn filter_none_match() {
    let df = Table::from_cols(vec![
        Column::from_ints(vec![1, 2, 3]),
        Column::from_ints(vec![4, 5, 6]),
    ])
    .unwrap();
    let c1 = df.col(0).int_values();
    let filtered = df.filter(|i| c1[i] > 100);
    assert_eq!(filtered.nrows(), 0);
}

#[test]
fn filter_all_match() {
    let df = Table::from_cols(vec![
        Column::from_ints(vec![1, 2, 3]),
        Column::from_ints(vec![4, 5, 6]),
    ])
    .unwrap();
    let filtered = df.filter(|_| true);
    assert_eq!(filtered.nrows(), 3);
    assert_eq!(filtered.col(0).int_values(), df.col(0).int_values());
}

#[test]
fn filter_mask_selects_marked_rows() {
    let df = Table::from_cols(vec![
        Column::from_ints(vec![1, 2, 3, 4]),
        Column::from_ints(vec![10, 20, 30, 40]),
    ])
    .unwrap();
    let kept = df.filter_mask(&vec![true, false, false, true]).unwrap();
    assert_eq!(kept.nrows(), 2);
    assert_eq!(kept.col(0).int_values(), vec![1, 4]);
    assert_eq!(kept.col(1).int_values(), vec![10, 40]);
    assert_eq!(
        df.filter_mask(&vec![true]).unwrap_err(),
        puruda::DataError::ArityMismatch
    );
}

#[test]
fn filter_preserves_header() {
    let mut df = Table::from_cols(vec![
        Column::from_ints(vec![1, 2]),
        Column::from_ints(vec![3, 4]),
    ])
    .unwrap();
    df.set_header(vec!["a", "b"]).unwrap();
    let filtered = df.filter(|_| true);
    assert_eq!(filtered.header(), df.header());
}

// =============================================================================
// append
// =============================================================================
#[test]
fn append_in_place() {
    let mut df1 = Table::from_cols(vec![
        Column::from_ints(vec![1, 2]),
        Column::from_reals(vec![real_text(3.0), real_text(4.0)]).unwrap(),
    ])
    .unwrap();
    let df2 = Table::from_cols(vec![
        Column::from_ints(vec![5, 6]),
        Column::from_reals(vec![real_text(7.0), real_text(8.0)]).unwrap(),
    ])
    .unwrap();
    df1.append(&df2).unwrap();
    assert_eq!(df1.nrows(), 4);
    assert_eq!(df1.col(0).int_values(), vec![1, 2, 5, 6]);
    let c2: Vec<f64> = df1.col(1).real_values().iter().map(|x| x.parse::<f64>().unwrap()).collect();
    assert_eq!(c2, vec![3.0, 4.0, 7.0, 8.0]);
}

#[test]
fn append_rejects_kind_mismatch() {
    let mut df1 = Table::from_cols(vec![Column::from_ints(vec![1])]).unwrap();
    let df2 = Table::from_cols(vec![Column::from_bools(vec![true])]).unwrap();
    assert_eq!(df1.append(&df2).unwrap_err(), puruda::DataError::ArityMismatch);
    assert_eq!(df1.nrows(), 1);
}

// =============================================================================
// concat
// =============================================================================
#[test]
fn concat_creates_new() {
    let df1 = Table::from_cols(vec![
        Column::from_ints(vec![1, 2]),
        Column::from_reals(vec![real_text(3.0), real_text(4.0)]).unwrap(),
    ])
    .unwrap();
    let df2 = Table::from_cols(vec![
        Column::from_ints(vec![5, 6]),
        Column::from_reals(vec![real_text(7.0), real_text(8.0)]).unwrap(),
    ])
    .unwrap();
    let combined = df1.concat(&df2).unwrap();
    assert_eq!(combined.nrows(), 4);
    assert_eq!(combined.col(0).int_values(), vec![1, 2, 5, 6]);
    let c2: Vec<f64> =
        combined.col(1).real_values().iter().map(|x| x.parse::<f64>().unwrap()).collect();
    assert_eq!(c2, vec![3.0, 4.0, 7.0, 8.0]);
    // neither input was changed
    assert_eq!(df1.nrows(), 2);
    assert_eq!(df2.nrows(), 2);
}

#[test]
fn concat_preserves_header() {
    let mut df1 = Table::from_cols(vec![
        Column::from_ints(vec![1]),
        Column::from_ints(vec![2]),
    ])
    .unwrap();
    df1.set_header(vec!["a", "b"]).unwrap();
    let df2 = Table::from_cols(vec![
        Column::from_ints(vec![3]),
        Column::from_ints(vec![4]),
    ])
    .unwrap();
    let combined = df1.concat(&df2).unwrap();
    assert_eq!(combined.header(), &vec!["a".to_string(), "b".to_string()]);
}

// =============================================================================
// Column push
// =============================================================================
#[test]
fn column_push() {
    let mut v = Column::from_ints(vec![1, 2, 3]);
    v.push(Value::Int(4)).unwrap();
    assert_eq!(v.int_values(), vec![1, 2, 3, 4]);
}

#[test]
fn column_set_replaces_cell() {
    let mut v = Column::from_ints(vec![1, 2, 3]);
    v.set(1, Value::Int(20)).unwrap();
    assert_eq!(v.int_values(), vec![1, 20, 3]);
    assert_eq!(v.set(9, Value::Int(0)).unwrap_err(), puruda::DataError::OutOfRange);
    assert_eq!(v.set(0, Value::Bool(true)).unwrap_err(), puruda::DataError::ArityMismatch);
    assert!(Value::real_from_text("pear".to_string()).is_none());
}

#[test]
fn column_push_rejects_other_kind() {
    let mut v = Column::from_ints(vec![1]);
    assert_eq!(v.push(Value::Str("x".to_string())).unwrap_err(), puruda::DataError::ArityMismatch);
    assert_eq!(v.int_values(), vec![1]);
}
