use citest::gram_index::{gram_applicable, ContinuousIndex, MAX_GRAM_COLS};
use citest::{CiError, ColumnKind, Dataset};

fn col(name: &str, kind: ColumnKind, values: &[f64]) -> (String, ColumnKind, Vec<u64>) {
    (name.to_string(), kind, values.iter().map(|v| v.to_bits()).collect())
}

fn mixed() -> Dataset {
    Dataset::from_columns(vec![
        col("a", ColumnKind::Continuous, &[0.1, 0.2]),
        col("b", ColumnKind::Discrete, &[1.0, 2.0]),
        col("c", ColumnKind::Continuous, &[0.3, 0.4]),
        col("d", ColumnKind::Continuous, &[0.5, 0.6]),
    ])
    .unwrap()
}

#[test]
fn continuous_columns_are_numbered_densely() {
    let ix = ContinuousIndex::build(&mixed());
    assert_eq!(ix.p(), 3);
    assert_eq!(ix.dense(0).unwrap(), 0);
    assert_eq!(ix.dense(2).unwrap(), 1);
    assert_eq!(ix.dense(3).unwrap(), 2);
    assert!(matches!(ix.dense(1), Err(CiError::WrongColumnKind(_))));
    assert!(matches!(ix.dense(4), Err(CiError::UnknownColumn(_))));
    assert_eq!(
        ix.dense(1).unwrap_err().to_string(),
        "wrong column kind: column 1 is discrete but a continuous column was required"
    );
}

#[test]
fn query_lookup_reports_the_first_bad_column() {
    let ix = ContinuousIndex::build(&mixed());
    let (dx, dy, dz) = ix.dense_query(3, 0, &[2]).unwrap();
    assert_eq!((dx, dy), (2, 0));
    assert_eq!(dz, vec![1]);
    // y is discrete, a later z column is out of range: y decides.
    assert!(matches!(ix.dense_query(0, 1, &[9]), Err(CiError::WrongColumnKind(_))));
    // z[0] out of range before the discrete z[1].
    assert!(matches!(ix.dense_query(0, 2, &[9, 1]), Err(CiError::UnknownColumn(_))));
    assert!(matches!(ix.dense_query(9, 1, &[]), Err(CiError::UnknownColumn(_))));
}

#[test]
fn gram_needs_rows_and_a_bounded_number_of_continuous_columns() {
    assert!(gram_applicable(10, 1));
    assert!(gram_applicable(1, MAX_GRAM_COLS));
    assert!(!gram_applicable(0, 3));
    assert!(!gram_applicable(10, 0));
    assert!(!gram_applicable(10, MAX_GRAM_COLS + 1));
}
