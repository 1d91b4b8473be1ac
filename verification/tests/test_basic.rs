use puruda::column::Column;
use puruda::table::Table;
use puruda::value::Kind;

// =============================================================================
// Construction & Accessors
// =============================================================================
#[test]
fn new_creates_empty() {
    let df = Table::new(vec![Kind::Int, Kind::Real]);
    assert_eq!(df.nrows(), 0);
    assert_eq!(df.ncols(), 2);
    assert!(df.is_empty());
}

#[test]
fn from_cols_and_accessors() {
    let reals: Vec<String> = vec![4.0f64, 5.0, 6.0].iter().map(|x| format!("{}", x)).collect();
    let df = Table::from_cols(vec![
        Column::from_ints(vec![1, 2, 3]),
        Column::from_reals(reals).unwrap(),
        Column::from_ints(vec![7, 8, 9]),
    ])
    .unwrap();
    assert_eq!(df.col(0).int_values(), vec![1, 2, 3]);
    let c2: Vec<f64> = df.col(1).real_values().iter().map(|s| s.parse::<f64>().unwrap()).collect();
    assert_eq!(c2, vec![4.0, 5.0, 6.0]);
    assert_eq!(df.col(2).int_values(), vec![7, 8, 9]);
    assert_eq!(
        df.col(0).values(),
        vec![
            puruda::value::Value::Int(1),
            puruda::value::Value::Int(2),
            puruda::value::Value::Int(3)
        ]
    );
}

#[test]
fn header_set_and_get() {
    let reals: Vec<String> = vec![2.0f64].iter().map(|x| format!("{}", x)).collect();
    let mut df = Table::from_cols(vec![
        Column::from_ints(vec![1]),
        Column::from_reals(reals).unwrap(),
    ])
    .unwrap();
    assert_eq!(df.header().len(), 0);

    df.set_header(vec!["x", "y"]).unwrap();
    assert_eq!(df.header(), &vec!["x".to_string(), "y".to_string()]);
}

#[test]
fn mutate_column() {
    let mut df = Table::from_cols(vec![
        Column::from_ints(vec![1, 2]),
        Column::from_ints(vec![3, 4]),
    ])
    .unwrap();
    df.replace_col(0, Column::from_ints(vec![10, 20])).unwrap();
    assert_eq!(df.col(0).int_values(), vec![10, 20]);
}

// =============================================================================
// Shape
// =============================================================================
#[test]
fn shape_len_is_empty() {
    let reals: Vec<String> = vec![4.0f64, 5.0, 6.0].iter().map(|x| format!("{}", x)).collect();
    let df = Table::from_cols(vec![
        Column::from_ints(vec![1, 2, 3]),
        Column::from_reals(reals).unwrap(),
    ])
    .unwrap();
    assert_eq!(df.shape(), (3, 2));
    assert_eq!(df.nrows(), 3);
    assert_eq!(df.ncols(), 2);
    assert_eq!(df.len(), 3);
    assert!(!df.is_empty());
}

#[test]
fn col1_shape() {
    let df = Table::from_cols(vec![Column::from_ints(vec![10, 20, 30, 40])]).unwrap();
    assert_eq!(df.shape(), (4, 1));
    assert_eq!(df.ncols(), 1);
}

// =============================================================================
// Construction errors
// =============================================================================
#[test]
fn from_cols_rejects_unequal_lengths() {
    let r = Table::from_cols(vec![
        Column::from_ints(vec![1, 2, 3]),
        Column::from_ints(vec![4, 5]),
    ]);
    assert_eq!(r.unwrap_err(), puruda::DataError::ArityMismatch);
}

#[test]
fn set_header_rejects_wrong_width() {
    let mut df = Table::from_cols(vec![
        Column::from_ints(vec![1]),
        Column::from_ints(vec![2]),
    ])
    .unwrap();
    assert_eq!(df.set_header(vec!["only"]).unwrap_err(), puruda::DataError::ArityMismatch);
    assert_eq!(df.header().len(), 0);
}

#[test]
fn real_column_rejects_non_numeric_text() {
    let r = Column::from_reals(vec!["1.5".to_string(), "pear".to_string()]);
    assert_eq!(r.unwrap_err(), puruda::DataError::ParseError { row: 1, col: 0 });
}

#[test]
fn vector_column_capability() {
    // plain vectors satisfy the column contract
    let v: Vec<i64> = vec![10, 20, 30];
    assert_eq!(<Vec<i64> as puruda::Column>::row(&v), 3);
    assert_eq!(*<Vec<i64> as puruda::Column>::idx(&v, 1), 20);
    assert_eq!(<Vec<i64> as puruda::Column>::to_vec(&v), &vec![10, 20, 30]);
    let w: Vec<String> = vec!["a".to_string()];
    assert_eq!(<Vec<String> as puruda::Column>::row(&w), 1);
    let b: Vec<bool> = vec![true, false];
    assert_eq!(*<Vec<bool> as puruda::Column>::idx(&b, 1), false);
}
