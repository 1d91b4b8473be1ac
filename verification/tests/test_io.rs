use puruda::column::Column;
use puruda::table::Table;
use puruda::value::Kind;
use puruda::{DataError, DocDefect};

fn real_text(x: f64) -> String {
    format!("{}", x)
}

fn reals_of(c: &Column) -> Vec<f64> {
    c.real_values().iter().map(|s| s.parse::<f64>().unwrap()).collect()
}

// =============================================================================
// CSV
// =============================================================================
#[test]
fn csv_write_and_read() {
    let mut df = Table::from_cols(vec![
        Column::from_ints(vec![1, 2, 3]),
        Column::from_reals(vec![real_text(1.5), real_text(2.5), real_text(3.5)]).unwrap(),
        Column::from_strs(vec!["a".to_string(), "b".to_string(), "c".to_string()]),
    ])
    .unwrap();
    df.set_header(vec!["x", "y", "z"]).unwrap();
    let text = df.to_csv_string(',');

    let df2 = Table::from_csv_string(&text, ',', &vec![Kind::Int, Kind::Real, Kind::Str]).unwrap();
    assert_eq!(df2.nrows(), 3);
    assert_eq!(df2.col(0).int_values(), vec![1, 2, 3]);
    assert_eq!(reals_of(df2.col(1)), vec![1.5, 2.5, 3.5]);
    assert_eq!(
        df2.col(2).str_values(),
        vec!["a".to_string(), "b".to_string(), "c".to_string()]
    );
}

#[test]
fn csv_tab_delimiter() {
    let mut df = Table::from_cols(vec![
        Column::from_ints(vec![10, 20]),
        Column::from_ints(vec![30, 40]),
    ])
    .unwrap();
    df.set_header(vec!["a", "b"]).unwrap();
    let text = df.to_csv_string('\t');

    let df2 = Table::from_csv_string(&text, '\t', &vec![Kind::Int, Kind::Int]).unwrap();
    assert_eq!(df2.col(0).int_values(), vec![10, 20]);
    assert_eq!(df2.col(1).int_values(), vec![30, 40]);
}

#[test]
fn csv_roundtrip_preserves_data() {
    let mut df = Table::from_cols(vec![
        Column::from_ints(vec![-1, 0, 999]),
        Column::from_reals(vec![real_text(0.001), real_text(-3.14), real_text(1e10)]).unwrap(),
    ])
    .unwrap();
    df.set_header(vec!["int_col", "float_col"]).unwrap();
    let text = df.to_csv_string(',');

    let df2 = Table::from_csv_string(&text, ',', &vec![Kind::Int, Kind::Real]).unwrap();
    assert_eq!(df2.col(0).int_values(), df.col(0).int_values());
    assert_eq!(df2.header(), df.header());
    let orig = reals_of(df.col(1));
    let back = reals_of(df2.col(1));
    for i in 0..3 {
        assert!((back[i] - orig[i]).abs() < 1e-10);
    }
}

#[test]
fn csv_exact_text() {
    let mut df = Table::from_cols(vec![
        Column::from_ints(vec![1, -2]),
        Column::from_strs(vec!["a".to_string(), "b".to_string()]),
    ])
    .unwrap();
    df.set_header(vec!["x", "y"]).unwrap();
    assert_eq!(df.to_csv_string(','), "x,y\n1,a\n-2,b\n");
}

#[test]
fn csv_read_trims_fields() {
    let text = "x, y\n 1 ,\tpear\n";
    let df = Table::from_csv_string(text, ',', &vec![Kind::Int, Kind::Str]).unwrap();
    assert_eq!(df.header(), &vec!["x".to_string(), "y".to_string()]);
    assert_eq!(df.col(0).int_values(), vec![1]);
    assert_eq!(df.col(1).str_values(), vec!["pear".to_string()]);
}

#[test]
fn csv_read_reports_bad_field() {
    let text = "x,y\n1,2\npear,4\n";
    let err = Table::from_csv_string(text, ',', &vec![Kind::Int, Kind::Int]).unwrap_err();
    assert_eq!(err, DataError::ParseError { row: 1, col: 0 });

    let missing = "x,y\n1\n";
    let err = Table::from_csv_string(missing, ',', &vec![Kind::Int, Kind::Int]).unwrap_err();
    assert_eq!(err, DataError::ParseError { row: 0, col: 1 });
}

#[test]
fn csv_read_rejects_header_arity() {
    let text = "x,y,z\n1,2,3\n";
    let err = Table::from_csv_string(text, ',', &vec![Kind::Int, Kind::Int]).unwrap_err();
    assert_eq!(err, DataError::MalformedDocument { defect: DocDefect::HeaderArity });
}

// =============================================================================
// JSON
// =============================================================================
#[test]
fn json_write_and_read() {
    let mut df = Table::from_cols(vec![
        Column::from_ints(vec![1, 2, 3]),
        Column::from_reals(vec![real_text(4.0), real_text(5.0), real_text(6.0)]).unwrap(),
    ])
    .unwrap();
    df.set_header(vec!["x", "y"]).unwrap();
    let text = df.to_json_string();

    let df2 = Table::from_json_string(&text, &vec![Kind::Int, Kind::Real]).unwrap();
    assert_eq!(df2.nrows(), 3);
    assert_eq!(df2.col(0).int_values(), vec![1, 2, 3]);
    assert_eq!(reals_of(df2.col(1)), vec![4.0, 5.0, 6.0]);
}

#[test]
fn json_string_columns() {
    let mut df = Table::from_cols(vec![
        Column::from_strs(vec!["hello".to_string(), "world".to_string()]),
        Column::from_ints(vec![10, 20]),
    ])
    .unwrap();
    df.set_header(vec!["word", "num"]).unwrap();
    let text = df.to_json_string();

    let df2 = Table::from_json_string(&text, &vec![Kind::Str, Kind::Int]).unwrap();
    assert_eq!(df2.col(0).str_values(), vec!["hello".to_string(), "world".to_string()]);
    assert_eq!(df2.col(1).int_values(), vec![10, 20]);
}

#[test]
fn json_to_string_format() {
    let mut df = Table::from_cols(vec![
        Column::from_ints(vec![1, 2]),
        Column::from_reals(vec![real_text(3.0), real_text(4.0)]).unwrap(),
    ])
    .unwrap();
    df.set_header(vec!["a", "b"]).unwrap();
    let json = df.to_json_string();

    assert!(json.contains("\"headers\""));
    assert!(json.contains("\"data\""));
    assert!(json.contains("\"a\""));
    assert!(json.contains("\"b\""));
}

#[test]
fn json_exact_text() {
    let mut df = Table::from_cols(vec![
        Column::from_ints(vec![1, 2]),
        Column::from_reals(vec![real_text(3.0), real_text(4.0)]).unwrap(),
    ])
    .unwrap();
    df.set_header(vec!["a", "b"]).unwrap();
    assert_eq!(
        df.to_json_string(),
        "{\n  \"headers\": [\"a\", \"b\"],\n  \"data\": {\n    \"a\": [1, 2],\n    \"b\": [3, 4]\n  }\n}"
    );
}

#[test]
fn json_from_string_roundtrip() {
    let mut df = Table::from_cols(vec![
        Column::from_ints(vec![10, 20, 30]),
        Column::from_reals(vec![real_text(1.1), real_text(2.2), real_text(3.3)]).unwrap(),
    ])
    .unwrap();
    df.set_header(vec!["x", "y"]).unwrap();
    let json = df.to_json_string();

    let df2 = Table::from_json_string(&json, &vec![Kind::Int, Kind::Real]).unwrap();
    assert_eq!(df2.col(0).int_values(), df.col(0).int_values());
    assert_eq!(df2.col(1).real_values(), df.col(1).real_values());
    assert_eq!(df2.header(), df.header());
}

#[test]
fn json_empty_df() {
    let mut df = Table::new(vec![Kind::Int, Kind::Int]);
    df.set_header(vec!["a", "b"]).unwrap();
    let json = df.to_json_string();

    let df2 = Table::from_json_string(&json, &vec![Kind::Int, Kind::Int]).unwrap();
    assert_eq!(df2.nrows(), 0);
}

#[test]
fn json_mixed_roundtrip() {
    // quoted strings, numeric-looking strings, and booleans all come back
    let mut df = Table::from_cols(vec![
        Column::from_strs(vec!["plain".to_string(), "123".to_string(), "true".to_string()]),
        Column::from_bools(vec![true, false, true]),
    ])
    .unwrap();
    df.set_header(vec!["s", "b"]).unwrap();
    let json = df.to_json_string();

    let df2 = Table::from_json_string(&json, &vec![Kind::Str, Kind::Bool]).unwrap();
    assert_eq!(
        df2.col(0).str_values(),
        vec!["plain".to_string(), "123".to_string(), "true".to_string()]
    );
    assert_eq!(df2.col(1).bool_values(), vec![true, false, true]);
    assert_eq!(df2.header(), df.header());
}

#[test]
fn json_read_reports_defects() {
    let bad = "{ \"header\": [] }";
    assert_eq!(
        Table::from_json_string(bad, &vec![Kind::Int]).unwrap_err(),
        DataError::MalformedDocument { defect: DocDefect::BadSyntax }
    );

    let wrong_key = "{\n  \"headers\": [\"a\"],\n  \"data\": {\n    \"b\": [1]\n  }\n}";
    assert_eq!(
        Table::from_json_string(wrong_key, &vec![Kind::Int]).unwrap_err(),
        DataError::MalformedDocument { defect: DocDefect::KeyMismatch }
    );

    let ragged = "{\n  \"headers\": [\"a\", \"b\"],\n  \"data\": {\n    \"a\": [1, 2],\n    \"b\": [3]\n  }\n}";
    assert_eq!(
        Table::from_json_string(ragged, &vec![Kind::Int, Kind::Int]).unwrap_err(),
        DataError::MalformedDocument { defect: DocDefect::RowCountMismatch }
    );

    let bad_cell = "{\n  \"headers\": [\"a\"],\n  \"data\": {\n    \"a\": [1, pear]\n  }\n}";
    assert_eq!(
        Table::from_json_string(bad_cell, &vec![Kind::Int]).unwrap_err(),
        DataError::ParseError { row: 1, col: 0 }
    );
}
