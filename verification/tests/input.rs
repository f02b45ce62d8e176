use citest::input::{factorize_strings, parse_kind, resolve_index, split_column_major, MatrixShapeError};
use citest::ColumnKind;

#[test]
fn kinds_parse_by_name() {
    assert_eq!(parse_kind("discrete"), Some(ColumnKind::Discrete));
    assert_eq!(parse_kind("continuous"), Some(ColumnKind::Continuous));
    assert_eq!(parse_kind("Discrete"), None);
    assert_eq!(parse_kind(""), None);
}

#[test]
fn negative_indices_count_from_the_end() {
    assert_eq!(resolve_index(0, 3), Some(0));
    assert_eq!(resolve_index(2, 3), Some(2));
    assert_eq!(resolve_index(3, 3), None);
    assert_eq!(resolve_index(-1, 3), Some(2));
    assert_eq!(resolve_index(-3, 3), Some(0));
    assert_eq!(resolve_index(-4, 3), None);
    assert_eq!(resolve_index(isize::MIN, 3), None);
    assert_eq!(resolve_index(0, 0), None);
}

#[test]
fn column_major_matrix_splits_into_columns() {
    let data: Vec<u64> = vec![1, 2, 3, 4, 5, 6];
    let cols = split_column_major(
        vec!["a".to_string(), "b".to_string()],
        vec![ColumnKind::Discrete, ColumnKind::Continuous],
        &data,
        3,
        2,
    )
    .unwrap();
    assert_eq!(cols.len(), 2);
    assert_eq!(cols[0], ("a".to_string(), ColumnKind::Discrete, vec![1, 2, 3]));
    assert_eq!(cols[1], ("b".to_string(), ColumnKind::Continuous, vec![4, 5, 6]));
}

#[test]
fn matrix_shape_errors() {
    let data: Vec<u64> = vec![1, 2];
    assert_eq!(
        split_column_major(vec!["a".to_string()], vec![], &data, 2, 1),
        Err(MatrixShapeError::NamesAndKinds { names: 1, kinds: 0 })
    );
    assert_eq!(
        split_column_major(vec!["a".to_string()], vec![ColumnKind::Discrete], &data, 1, 2),
        Err(MatrixShapeError::ColumnCount { matrix: 2, names: 1 })
    );
    let empty: Vec<u64> = vec![];
    assert_eq!(split_column_major(vec![], vec![], &empty, 5, 0), Ok(vec![]));
}

#[test]
fn strings_factorize_in_first_seen_order() {
    let values: Vec<String> = ["b", "a", "b", "c", "a"].iter().map(|s| s.to_string()).collect();
    let (codes, card) = factorize_strings(&values);
    assert_eq!(codes, vec![0, 1, 0, 2, 1]);
    assert_eq!(card, 3);
    let (codes, card) = factorize_strings(&vec![]);
    assert!(codes.is_empty());
    assert_eq!(card, 0);
}
