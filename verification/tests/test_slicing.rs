use puruda::column::Column;
use puruda::table::Table;

fn make_df() -> Table {
    let reals: Vec<String> =
        vec![1.1f64, 2.2, 3.3, 4.4, 5.5].iter().map(|x| format!("{}", x)).collect();
    let mut df = Table::from_cols(vec![
        Column::from_ints(vec![10, 20, 30, 40, 50]),
        Column::from_reals(reals).unwrap(),
        Column::from_strs(
            vec!["a", "b", "c", "d", "e"].into_iter().map(|s| s.to_string()).collect(),
        ),
    ])
    .unwrap();
    df.set_header(vec!["x", "y", "z"]).unwrap();
    df
}

#[test]
fn head_normal() {
    let df = make_df();
    let h = df.head(3);
    assert_eq!(h.nrows(), 3);
    assert_eq!(h.col(0).int_values(), vec![10, 20, 30]);
    assert_eq!(h.header(), df.header());
}

#[test]
fn head_exceeds_rows() {
    let df = make_df();
    let h = df.head(100);
    assert_eq!(h.nrows(), 5); // clamped to nrows
}

#[test]
fn head_zero() {
    let df = make_df();
    let h = df.head(0);
    assert_eq!(h.nrows(), 0);
}

#[test]
fn tail_normal() {
    let df = make_df();
    let t = df.tail(2);
    assert_eq!(t.nrows(), 2);
    assert_eq!(t.col(0).int_values(), vec![40, 50]);
    assert_eq!(t.col(2).str_values(), vec!["d".to_string(), "e".to_string()]);
}

#[test]
fn tail_exceeds_rows() {
    let df = make_df();
    let t = df.tail(100);
    assert_eq!(t.nrows(), 5);
}

#[test]
fn slice_normal() {
    let df = make_df();
    let s = df.slice(1, 4).unwrap();
    assert_eq!(s.nrows(), 3);
    assert_eq!(s.col(0).int_values(), vec![20, 30, 40]);
    let c2: Vec<f64> = s.col(1).real_values().iter().map(|x| x.parse::<f64>().unwrap()).collect();
    assert_eq!(c2, vec![2.2, 3.3, 4.4]);
}

#[test]
fn slice_clamped() {
    let df = make_df();
    let s = df.slice(3, 100).unwrap();
    assert_eq!(s.nrows(), 2);
    assert_eq!(s.col(0).int_values(), vec![40, 50]);
}

#[test]
fn slice_rejects_start_past_end() {
    let df = make_df();
    assert_eq!(df.slice(4, 2).unwrap_err(), puruda::DataError::OutOfRange);
    assert_eq!(df.slice(6, 100).unwrap_err(), puruda::DataError::OutOfRange);
}
