use puruda::column::Column;
use puruda::table::Table;
use puruda::value::Kind;

fn real_text(x: f64) -> String {
    format!("{}", x)
}

#[test]
fn display_basic_table() {
    let mut df = Table::from_cols(vec![
        Column::from_ints(vec![1, 2, 3]),
        Column::from_reals(vec![real_text(4.0), real_text(5.0), real_text(6.0)]).unwrap(),
        Column::from_strs(vec!["a".to_string(), "bb".to_string(), "ccc".to_string()]),
    ])
    .unwrap();
    df.set_header(vec!["x", "y", "z"]).unwrap();

    let output = df.render();
    // Should contain header, separator, and data
    assert!(output.contains("x"));
    assert!(output.contains("y"));
    assert!(output.contains("z"));
    assert!(output.contains("1"));
    assert!(output.contains("6"));
    assert!(output.contains("ccc"));
    // Should have separator line with dashes
    assert!(output.contains("--"));
}

#[test]
fn display_right_aligned() {
    let mut df = Table::from_cols(vec![
        Column::from_ints(vec![1, 100]),
        Column::from_ints(vec![2, 3]),
    ])
    .unwrap();
    df.set_header(vec!["num", "v"]).unwrap();
    let output = df.render();
    let lines: Vec<&str> = output.lines().collect();
    // "num" column should be right-aligned with "100"
    assert!(lines.len() >= 4); // header + sep + 2 data rows
}

#[test]
fn display_single_col() {
    let mut df = Table::from_cols(vec![Column::from_ints(vec![10, 20, 30])]).unwrap();
    df.set_header(vec!["val"]).unwrap();
    let output = df.render();
    assert!(output.contains("val"));
    assert!(output.contains("10"));
    assert!(output.contains("30"));
}

#[test]
fn display_empty_df() {
    let mut df = Table::new(vec![Kind::Int, Kind::Int]);
    df.set_header(vec!["a", "b"]).unwrap();
    let output = df.render();
    // Should have header and separator but no data rows
    assert!(output.contains("a"));
    assert!(output.contains("b"));
    // the separator line keeps its terminator even with no data rows
    assert_eq!(output, "a  b\n-  -\n");
}

#[test]
fn column_display_print() {
    // Just verify rendering every cell's text goes through
    let v = Column::from_ints(vec![1, 2, 3]);
    for line in v.texts() {
        println!("{}", line);
    }

    let v2 = Column::from_strs(vec!["hello".to_string(), "world".to_string()]);
    for line in v2.texts() {
        println!("{}", line);
    }
}

#[test]
fn display_exact_text() {
    let mut df = Table::from_cols(vec![
        Column::from_ints(vec![1, 100]),
        Column::from_strs(vec!["a".to_string(), "b".to_string()]),
    ])
    .unwrap();
    df.set_header(vec!["num", "s"]).unwrap();
    assert_eq!(df.render(), "num  s\n---  -\n  1  a\n100  b");
}

#[test]
fn describe_reports_counts() {
    let mut df = Table::from_cols(vec![
        Column::from_ints(vec![1, 2, 3]),
        Column::from_strs(vec!["a".to_string(), "b".to_string(), "c".to_string()]),
    ])
    .unwrap();
    df.set_header(vec!["nums", "words"]).unwrap();
    let summary = df.describe();
    assert_eq!(summary.header(), &vec!["Name".to_string(), "Count".to_string()]);
    assert_eq!(summary.col(0).str_values(), vec!["nums".to_string(), "words".to_string()]);
    assert_eq!(summary.col(1).int_values(), vec![3, 3]);
}

#[test]
fn describe_names_unlabelled_columns() {
    let df = Table::from_cols(vec![
        Column::from_ints(vec![1]),
        Column::from_ints(vec![2]),
    ])
    .unwrap();
    let summary = df.describe();
    assert_eq!(summary.col(0).str_values(), vec!["col_1".to_string(), "col_2".to_string()]);
}
