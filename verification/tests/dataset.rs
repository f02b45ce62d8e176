use citest::dataset::{canonical_bits, is_missing};
use citest::{CiError, ColumnKind, Dataset};

fn col(name: &str, kind: ColumnKind, values: &[f64]) -> (String, ColumnKind, Vec<u64>) {
    (name.to_string(), kind, values.iter().map(|v| v.to_bits()).collect())
}

#[test]
fn dataset_factorizes_discrete_first_seen() {
    let ds = Dataset::from_columns(vec![col("a", ColumnKind::Discrete, &[5.0, 5.0, 2.0, 2.0, 5.0])]).unwrap();
    let (codes, card) = ds.discrete(0).unwrap();
    assert_eq!(card, 2);
    assert_eq!(codes, &[0, 0, 1, 1, 0]);
    assert_eq!(ds.n_rows(), 5);
}

#[test]
fn groups_neg_zero() {
    let ds = Dataset::from_columns(vec![col("a", ColumnKind::Discrete, &[0.0, -0.0, 1.0])]).unwrap();
    let (codes, card) = ds.discrete(0).unwrap();
    // 0.0 and -0.0 share a code; 1.0 is its own.
    assert_eq!(card, 2);
    assert_eq!(codes, &[0, 0, 1]);
}

#[test]
fn nan_errors_in_any_column_kind() {
    for kind in [ColumnKind::Discrete, ColumnKind::Continuous] {
        let err = Dataset::from_columns(vec![col("a", kind, &[1.0, f64::NAN, 2.0])]).unwrap_err();
        assert!(matches!(err, CiError::MissingData(_)), "kind {kind:?}: {err:?}");
        let msg = err.to_string();
        assert!(msg.contains("`a`"), "message should name the column: {msg}");
        assert!(msg.contains("row 1"), "message should give the row: {msg}");
    }
}

#[test]
fn duplicate_column_names_error() {
    let err = Dataset::from_columns(vec![
        col("a", ColumnKind::Continuous, &[1.0, 2.0]),
        col("a", ColumnKind::Continuous, &[3.0, 4.0]),
    ])
    .unwrap_err();
    assert!(matches!(err, CiError::DimensionMismatch(_)), "{err:?}");
    assert!(err.to_string().contains("`a`"));
}

#[test]
fn infinite_continuous_value_errors() {
    let err = Dataset::from_columns(vec![col("a", ColumnKind::Continuous, &[1.0, f64::INFINITY, 2.0])]).unwrap_err();
    assert!(matches!(err, CiError::MissingData(_)), "{err:?}");
    assert!(err.to_string().contains("row 1"));
}

#[test]
fn dataset_continuous_round_trips() {
    let ds = Dataset::from_columns(vec![col("x", ColumnKind::Continuous, &[1.5, 2.5, 3.5])]).unwrap();
    let back: Vec<f64> = ds.continuous_values(0).unwrap().iter().map(|b| f64::from_bits(*b)).collect();
    assert_eq!(back, vec![1.5, 2.5, 3.5]);
    assert_eq!(ds.index_of("x"), Some(0));
    assert_eq!(ds.index_of("nope"), None);
}

#[test]
fn dataset_mismatched_lengths_error() {
    let err = Dataset::from_columns(vec![
        col("a", ColumnKind::Continuous, &[1.0, 2.0]),
        col("b", ColumnKind::Continuous, &[1.0]),
    ])
    .unwrap_err();
    assert!(matches!(err, CiError::DimensionMismatch(_)));
}

#[test]
fn dataset_wrong_kind_errors() {
    let ds = Dataset::from_columns(vec![col("a", ColumnKind::Discrete, &[1.0, 2.0])]).unwrap();
    assert!(ds.continuous_values(0).is_none(), "discrete column");
    assert!(ds.continuous_values(9).is_none(), "out of range");
    assert!(matches!(ds.discrete(9), Err(CiError::UnknownColumn(_))));
}

#[test]
fn mismatched_length_message_names_both_lengths() {
    let err = Dataset::from_columns(vec![
        col("a", ColumnKind::Discrete, &[1.0, 2.0, 3.0]),
        col("b", ColumnKind::Discrete, &[1.0]),
    ])
    .unwrap_err();
    assert_eq!(err.to_string(), "dimension mismatch: column `b` has length 1 but expected 3");
}

#[test]
fn length_mismatch_is_reported_before_missing_data() {
    // The length check covers every column before any value is inspected.
    let err = Dataset::from_columns(vec![
        col("a", ColumnKind::Discrete, &[f64::NAN, 1.0]),
        col("b", ColumnKind::Discrete, &[1.0]),
    ])
    .unwrap_err();
    assert!(matches!(err, CiError::DimensionMismatch(_)));
}

#[test]
fn first_refused_column_decides_the_error() {
    // Column 1 repeats a name, column 2 holds a NaN: the repeat comes first.
    let err = Dataset::from_columns(vec![
        col("a", ColumnKind::Discrete, &[1.0, 2.0]),
        col("a", ColumnKind::Discrete, &[1.0, 2.0]),
        col("c", ColumnKind::Discrete, &[f64::NAN, 2.0]),
    ])
    .unwrap_err();
    assert!(matches!(err, CiError::DimensionMismatch(_)));
    // Here the NaN column comes before the repeated name.
    let err = Dataset::from_columns(vec![
        col("a", ColumnKind::Discrete, &[1.0, 2.0]),
        col("c", ColumnKind::Discrete, &[f64::NAN, 2.0]),
        col("a", ColumnKind::Discrete, &[1.0, 2.0]),
    ])
    .unwrap_err();
    assert!(matches!(err, CiError::MissingData(_)));
}

#[test]
fn infinite_discrete_value_is_a_category() {
    let ds = Dataset::from_columns(vec![col(
        "a",
        ColumnKind::Discrete,
        &[f64::INFINITY, 1.0, f64::INFINITY, f64::NEG_INFINITY],
    )])
    .unwrap();
    let (codes, card) = ds.discrete(0).unwrap();
    assert_eq!(card, 3);
    assert_eq!(codes, &[0, 1, 0, 2]);
}

#[test]
fn empty_dataset_has_no_rows_or_columns() {
    let ds = Dataset::from_columns(vec![]).unwrap();
    assert_eq!(ds.n_rows(), 0);
    assert_eq!(ds.n_cols(), 0);
    assert_eq!(ds.name_of(0), None);
}

#[test]
fn names_and_indices_round_trip() {
    let ds = Dataset::from_columns(vec![
        col("x", ColumnKind::Discrete, &[1.0, 2.0]),
        col("y", ColumnKind::Continuous, &[0.5, 0.25]),
    ])
    .unwrap();
    assert_eq!(ds.n_cols(), 2);
    assert_eq!(ds.name_of(1), Some("y"));
    assert_eq!(ds.index_of("y"), Some(1));
    assert!(matches!(ds.discrete(1), Err(CiError::WrongColumnKind(_))));
    let msg = ds.discrete(1).unwrap_err().to_string();
    assert_eq!(msg, "wrong column kind: column 1 is continuous but a discrete column was required");
    assert_eq!(ds.discrete(9).unwrap_err().to_string(), "unknown column: column index 9");
}

#[test]
fn clone_keeps_the_columns() {
    let ds = Dataset::from_columns(vec![col("x", ColumnKind::Discrete, &[3.0, 4.0, 3.0])]).unwrap();
    let copy = ds.clone();
    assert_eq!(copy.n_rows(), 3);
    assert_eq!(copy.name_of(0), Some("x"));
    assert_eq!(copy.discrete(0).unwrap(), ds.discrete(0).unwrap());
}

#[test]
fn canonical_bits_merges_the_zeros_only() {
    assert_eq!(canonical_bits((-0.0f64).to_bits()), 0.0f64.to_bits());
    assert_eq!(canonical_bits(1.5f64.to_bits()), 1.5f64.to_bits());
    assert_eq!(canonical_bits((-1.5f64).to_bits()), (-1.5f64).to_bits());
    assert_eq!(canonical_bits(f64::INFINITY.to_bits()), f64::INFINITY.to_bits());
}

#[test]
fn missing_depends_on_kind() {
    assert!(is_missing(ColumnKind::Discrete, f64::NAN.to_bits()));
    assert!(!is_missing(ColumnKind::Discrete, f64::INFINITY.to_bits()));
    assert!(is_missing(ColumnKind::Continuous, f64::INFINITY.to_bits()));
    assert!(is_missing(ColumnKind::Continuous, f64::NEG_INFINITY.to_bits()));
    assert!(!is_missing(ColumnKind::Continuous, (-2.5f64).to_bits()));
}
