use puruda::column::Column;
use puruda::value::Value;

fn ratio(r: (i64, usize)) -> f64 {
    r.0 as f64 / r.1 as f64
}

fn var_of(r: (i128, u128)) -> f64 {
    r.0 as f64 / r.1 as f64
}

// =============================================================================
// Integer Numeric
// =============================================================================
#[test]
fn int_sum() {
    let v = Column::from_ints(vec![1, 2, 3, 4, 5]);
    assert_eq!(v.sum(), 15);
}

#[test]
fn int_mean() {
    let v = Column::from_ints(vec![2, 4, 6]);
    let m = ratio(v.mean_ratio());
    assert!((m - 4.0).abs() < 1e-10);
}

#[test]
fn int_min_max() {
    let v = Column::from_ints(vec![5, 1, 3, 2, 4]);
    assert_eq!(v.min_val(), Some(Value::Int(1)));
    assert_eq!(v.max_val(), Some(Value::Int(5)));
}

#[test]
fn int_var_std() {
    // population variance of [2, 4, 4, 4, 5, 5, 7, 9] = 4.0
    let v = Column::from_ints(vec![2, 4, 4, 4, 5, 5, 7, 9]);
    let var = var_of(v.var_ratio());
    assert!((var - 4.0).abs() < 1e-10);
    assert!((var.sqrt() - 2.0).abs() < 1e-10);
}

#[test]
fn empty_int_stats() {
    let v = Column::from_ints(vec![]);
    assert_eq!(v.sum(), 0);
    assert_eq!(ratio(v.mean_ratio()), 0.0);
    assert_eq!(v.min_val(), None);
    assert_eq!(v.max_val(), None);
    assert_eq!(var_of(v.var_ratio()), 0.0);
}

#[test]
fn exact_ratios() {
    // the mean and variance come back as exact rationals
    let v = Column::from_ints(vec![1, 2]);
    assert_eq!(v.mean_ratio(), (3, 2));
    // n*sum(x^2) - sum(x)^2 = 2*5 - 9 = 1; denominator n^2 = 4
    assert_eq!(v.var_ratio(), (1, 4));
}

// =============================================================================
// Unsigned & other int types
// =============================================================================
#[test]
fn u32_sum() {
    let v = Column::from_ints(vec![10, 20, 30]);
    assert_eq!(v.sum(), 60);
}

#[test]
fn u64_mean() {
    let v = Column::from_ints(vec![100, 200, 300]);
    assert!((ratio(v.mean_ratio()) - 200.0).abs() < 1e-10);
}

#[test]
fn usize_min_max() {
    let v = Column::from_ints(vec![5, 3, 8, 1]);
    assert_eq!(v.min_val(), Some(Value::Int(1)));
    assert_eq!(v.max_val(), Some(Value::Int(8)));
}

#[test]
fn i64_var() {
    let v = Column::from_ints(vec![10, 20, 30]);
    // mean = 20, var = ((10-20)^2 + (20-20)^2 + (30-20)^2) / 3 = 200/3
    let expected = 200.0 / 3.0;
    assert!((var_of(v.var_ratio()) - expected).abs() < 1e-10);
}

// =============================================================================
// Ordering across kinds
// =============================================================================
#[test]
fn string_min_max() {
    let v = Column::from_strs(vec!["pear".to_string(), "apple".to_string(), "quince".to_string()]);
    assert_eq!(v.min_val(), Some(Value::Str("apple".to_string())));
    assert_eq!(v.max_val(), Some(Value::Str("quince".to_string())));
}
