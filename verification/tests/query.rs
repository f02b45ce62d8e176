use citest::{validate_query, CiError, ColumnKind, Dataset};

fn col(name: &str, kind: ColumnKind, values: &[f64]) -> (String, ColumnKind, Vec<u64>) {
    (name.to_string(), kind, values.iter().map(|v| v.to_bits()).collect())
}

fn two_col_data() -> Dataset {
    Dataset::from_columns(vec![
        col("a", ColumnKind::Discrete, &[1., 2., 1., 2.]),
        col("b", ColumnKind::Discrete, &[1., 1., 2., 2.]),
        col("c", ColumnKind::Discrete, &[1., 2., 2., 1.]),
    ])
    .unwrap()
}

#[test]
fn rejects_x_equals_y() {
    let data = two_col_data();
    let err = validate_query(&data, 0, 0, &[]).unwrap_err();
    assert!(matches!(err, CiError::InvalidQuery(_)), "{err:?}");
}

#[test]
fn rejects_x_or_y_in_z() {
    let data = two_col_data();
    assert!(matches!(validate_query(&data, 0, 1, &[0]), Err(CiError::InvalidQuery(_))));
    assert!(matches!(validate_query(&data, 0, 1, &[1]), Err(CiError::InvalidQuery(_))));
}

#[test]
fn rejects_duplicate_z() {
    let data = two_col_data();
    assert!(matches!(validate_query(&data, 0, 1, &[2, 2]), Err(CiError::InvalidQuery(_))));
}

#[test]
fn rejects_out_of_range_indices() {
    let data = two_col_data();
    assert!(matches!(validate_query(&data, 9, 1, &[]), Err(CiError::UnknownColumn(_))));
    assert!(matches!(validate_query(&data, 0, 1, &[9]), Err(CiError::UnknownColumn(_))));
    assert!(matches!(validate_query(&data, 0, 0, &[]), Err(CiError::InvalidQuery(_))));
}

#[test]
fn well_formed_queries_pass() {
    let data = two_col_data();
    assert!(validate_query(&data, 0, 1, &[]).is_ok());
    assert!(validate_query(&data, 1, 0, &[2]).is_ok());
}

#[test]
fn range_errors_come_before_shape_errors() {
    // x == y and an out-of-range z: the range check runs first.
    let data = two_col_data();
    let err = validate_query(&data, 0, 0, &[7]).unwrap_err();
    assert!(matches!(err, CiError::UnknownColumn(_)));
    assert_eq!(err.to_string(), "unknown column: column index 7");
}

#[test]
fn error_messages_name_the_offending_column() {
    let data = two_col_data();
    assert_eq!(
        validate_query(&data, 0, 0, &[]).unwrap_err().to_string(),
        "invalid query: x and y must be different columns (both are column index 0)"
    );
    // x is reported before y, whatever their order in z.
    assert_eq!(
        validate_query(&data, 0, 1, &[1, 0]).unwrap_err().to_string(),
        "invalid query: x (column index 0) must not appear in the conditioning set z"
    );
    assert_eq!(
        validate_query(&data, 0, 1, &[1]).unwrap_err().to_string(),
        "invalid query: y (column index 1) must not appear in the conditioning set z"
    );
    assert_eq!(
        validate_query(&data, 0, 1, &[2, 2]).unwrap_err().to_string(),
        "invalid query: conditioning set z contains column index 2 more than once"
    );
    assert_eq!(validate_query(&data, 0, 1, &[5, 9]).unwrap_err().to_string(), "unknown column: column index 5");
    assert_eq!(validate_query(&data, 1, 8, &[5]).unwrap_err().to_string(), "unknown column: column index 8");
}
