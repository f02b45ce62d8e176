use std::collections::{HashMap, HashSet};

use citest::discrete::ContingencyTable;
use citest::tables::{
    build_global_category_map, contingency_table, contingency_table_from_indices, contingency_table_with_categories,
    order_key_of, partition_indices,
};

fn bits(values: &[f64]) -> Vec<u64> {
    values.iter().map(|v| v.to_bits()).collect()
}

fn rows_of(data: &[&[f64]]) -> Vec<Vec<u64>> {
    data.iter().map(|r| bits(r)).collect()
}

fn cells(t: &ContingencyTable) -> Vec<Vec<usize>> {
    (0..t.rows()).map(|r| (0..t.cols()).map(|c| t.get(r, c)).collect()).collect()
}

#[test]
fn basic_test() {
    let x = bits(&[1.0, 2.0, 3.0, 1.0, 1.0]);
    let y = bits(&[1.0, 2.0, 3.0, 1.0, 2.0]);
    let t = contingency_table(&x, &y);
    assert_eq!(cells(&t), vec![vec![2, 1, 0], vec![0, 1, 0], vec![0, 0, 1]]);
}

#[test]
fn single_value() {
    let x = bits(&[1.0, 1.0, 1.0]);
    let y = bits(&[2.0, 2.0, 2.0]);
    assert_eq!(cells(&contingency_table(&x, &y)), vec![vec![3]]);
}

#[test]
fn categories_are_numbered_by_value() {
    let values = bits(&[3.0, -1.0, f64::NAN, 0.5, -0.0, 3.0, 0.0, f64::NEG_INFINITY]);
    let map = build_global_category_map(&values);
    assert_eq!(map.len(), 6);
    let rank = |v: f64| map[&order_key_of(v.to_bits())];
    assert_eq!(rank(f64::NEG_INFINITY), 0);
    assert_eq!(rank(-1.0), 1);
    assert_eq!(rank(0.0), 2);
    assert_eq!(rank(-0.0), 2);
    assert_eq!(rank(0.5), 3);
    assert_eq!(rank(3.0), 4);
    assert_eq!(rank(f64::NAN), 5);
}

#[test]
fn order_keys_follow_numeric_order() {
    let ordered = [
        f64::NEG_INFINITY,
        -1e300,
        -2.5,
        -1e-300,
        -0.0,
        1e-310,
        1.0,
        2.5,
        1e300,
        f64::INFINITY,
        f64::NAN,
    ];
    for w in ordered.windows(2) {
        let (a, b) = (order_key_of(w[0].to_bits()), order_key_of(w[1].to_bits()));
        assert!(a < b, "{} should sort before {}", w[0], w[1]);
    }
    assert_eq!(order_key_of((-0.0f64).to_bits()), order_key_of(0.0f64.to_bits()));
    assert_eq!(order_key_of(f64::NAN.to_bits()), order_key_of((-f64::NAN).to_bits()));
}

#[test]
fn table_does_not_depend_on_the_order_of_the_pairs() {
    let x = bits(&[3.0, 1.0, 2.0, 1.0, 3.0]);
    let y = bits(&[0.5, 0.5, 1.5, 1.5, 0.5]);
    let xr = bits(&[3.0, 1.0, 3.0, 2.0, 1.0]);
    let yr = bits(&[0.5, 1.5, 0.5, 1.5, 0.5]);
    let a = cells(&contingency_table(&x, &y));
    let b = cells(&contingency_table(&xr, &yr));
    assert_eq!(a, b);
    assert_eq!(a, vec![vec![1, 1], vec![0, 1], vec![2, 0]]);
}

#[test]
fn with_categories_skips_unnumbered_values() {
    let x = bits(&[1.0, 2.0, 5.0, 1.0]);
    let y = bits(&[1.0, 1.0, 1.0, 9.0]);
    let mut xm: HashMap<u64, usize> = HashMap::new();
    xm.insert(order_key_of(1.0f64.to_bits()), 1);
    xm.insert(order_key_of(2.0f64.to_bits()), 0);
    let mut ym: HashMap<u64, usize> = HashMap::new();
    ym.insert(order_key_of(1.0f64.to_bits()), 0);
    let t = contingency_table_with_categories(&x, &y, &xm, &ym);
    // 5.0 has no row and 9.0 has no column: those pairs are left out.
    assert_eq!(cells(&t), vec![vec![1], vec![1]]);
}

#[test]
fn from_indices_counts_the_listed_rows() {
    let x = bits(&[1.0, 2.0, 1.0, 2.0]);
    let y = bits(&[7.0, 7.0, 8.0, 8.0]);
    let xm = build_global_category_map(&x);
    let ym = build_global_category_map(&y);
    let t = contingency_table_from_indices(&[0, 3, 3], &x, &y, &xm, &ym);
    assert_eq!(cells(&t), vec![vec![1, 0], vec![0, 2]]);
}

fn as_set(groups: Vec<Vec<usize>>) -> HashSet<Vec<usize>> {
    groups.into_iter().collect()
}

#[test]
fn simple_grouping() {
    let result = partition_indices(&rows_of(&[&[1.0, 10.0], &[1.0, 10.0], &[2.0, 30.0]]));
    assert_eq!(result.len(), 2);
}

#[test]
fn test_empty_array() {
    let result = partition_indices(&[]);
    assert!(result.is_empty());
}

#[test]
fn test_singleton_groups() {
    let result = partition_indices(&rows_of(&[&[1.0, 10.0], &[2.0, 20.0], &[3.0, 30.0]]));
    assert_eq!(result.len(), 3);
    assert!(result.iter().all(|g| g.len() == 1));
}

#[test]
fn test_single_partition() {
    let result = partition_indices(&rows_of(&[&[1.0, 10.0], &[1.0, 10.0], &[1.0, 10.0]]));
    assert_eq!(result.len(), 1);
    let mut group = result[0].clone();
    group.sort_unstable();
    assert_eq!(group, vec![0, 1, 2]);
}

#[test]
fn float_rounding() {
    let result = partition_indices(&rows_of(&[&[1.0, 10.0], &[1.000_000_000_1, 10.0]]));
    assert_eq!(result.len(), 2);
}

#[test]
fn multiple_columns() {
    let result = partition_indices(&rows_of(&[
        &[1.0, 2.0, 10.0],
        &[1.0, 2.0, 10.0],
        &[1.0, 3.0, 30.0],
        &[2.0, 2.0, 40.0],
    ]));
    assert_eq!(result.len(), 3);
    assert!(result.iter().any(|g| g.len() == 2));
}

#[test]
fn order_dependence() {
    let expected: HashSet<Vec<usize>> = [vec![0, 3], vec![1, 2]].into_iter().collect();
    let result = as_set(partition_indices(&rows_of(&[&[1.0, 2.0], &[2.0, 1.0], &[2.0, 1.0], &[1.0, 2.0]])));
    assert_eq!(expected, result);
}

#[test]
fn zero_column_rows() {
    let rows: Vec<Vec<u64>> = vec![vec![], vec![], vec![]];
    let result = partition_indices(&rows);
    assert_eq!(result.len(), 1);
    let mut group = result[0].clone();
    group.sort_unstable();
    assert_eq!(group, vec![0, 1, 2]);
}

#[test]
fn single_column_rows() {
    let result = partition_indices(&rows_of(&[&[1.0], &[2.0], &[1.0]]));
    assert_eq!(result.len(), 2);
    let expected: HashSet<Vec<usize>> = [vec![0, 2], vec![1]].into_iter().collect();
    assert_eq!(as_set(result), expected);
}

#[test]
fn negative_values() {
    let result = as_set(partition_indices(&rows_of(&[
        &[-1.0, 2.0],
        &[0.0, -0.0],
        &[0.0, 0.0],
        &[-1.0, 2.0],
        &[-1.0, -2.0],
    ])));
    let expected: HashSet<Vec<usize>> = [vec![0, 3], vec![1, 2], vec![4]].into_iter().collect();
    assert_eq!(expected, result);
}

#[test]
fn groups_come_in_first_seen_order_with_nan_as_one_value() {
    let result = partition_indices(&rows_of(&[&[f64::NAN], &[1.0], &[-f64::NAN], &[1.0]]));
    assert_eq!(result, vec![vec![0, 2], vec![1, 3]]);
}
