use std::collections::HashMap;
use std::sync::Arc;

use citest::cache::{StrataCacheInner, MAX_STRATA_CACHE_BYTES};
use citest::strata::{build_strata_partition, fold_strides, StrataPartition};
use citest::{CiError, ColumnKind, Dataset};

fn col(name: &str, kind: ColumnKind, values: &[f64]) -> (String, ColumnKind, Vec<u64>) {
    (name.to_string(), kind, values.iter().map(|v| v.to_bits()).collect())
}

/// Deterministic LCG so the parity tests need no rand dependency.
fn lcg_codes(seed: &mut u64, n: usize, card: usize) -> Vec<usize> {
    (0..n)
        .map(|_| {
            *seed = seed.wrapping_mul(6_364_136_223_846_793_005).wrapping_add(1_442_695_040_888_963_407);
            ((*seed >> 33) as usize) % card
        })
        .collect()
}

/// Reference grouping: strata in first-seen order of the Z tuples, rows in
/// increasing order within each stratum.
fn naive_partition(z: &[(&[usize], usize)], n: usize) -> (Vec<u32>, Vec<u32>) {
    let mut order: Vec<Vec<usize>> = Vec::new();
    let mut groups: HashMap<Vec<usize>, Vec<u32>> = HashMap::new();
    for r in 0..n {
        let key: Vec<usize> = z.iter().map(|(codes, _)| codes[r]).collect();
        if !groups.contains_key(&key) {
            order.push(key.clone());
        }
        groups.entry(key).or_default().push(r as u32);
    }
    let mut starts = vec![0u32];
    let mut rows = Vec::new();
    for key in order {
        rows.extend(groups[&key].iter().copied());
        starts.push(rows.len() as u32);
    }
    (starts, rows)
}

#[test]
fn partition_matches_naive_grouping() {
    let mut seed = 0x00C0_FFEE_u64;
    for (n, z_cards) in [
        (200, vec![2]),
        (500, vec![2, 3]),
        (350, vec![3, 2, 4]),
        (64, vec![5]),
        (30, vec![100, 100]),
    ] {
        let z: Vec<(Vec<usize>, usize)> = z_cards.iter().map(|&c| (lcg_codes(&mut seed, n, c), c)).collect();
        let z_ref: Vec<(&[usize], usize)> = z.iter().map(|(v, c)| (v.as_slice(), *c)).collect();
        let partition = build_strata_partition(&z_ref, n);
        let (starts, rows) = naive_partition(&z_ref, n);
        assert_eq!(partition.starts, starts, "n={n}");
        assert_eq!(partition.rows, rows, "n={n}");
    }
}

#[test]
fn overflow_path_matches_naive() {
    // 64 conditioning columns of cardinality 2 -> 2^64 overflows usize,
    // forcing the tuple-comparing grouping. 8 rows.
    let n = 8;
    let z_cols: Vec<Vec<usize>> = (0..64).map(|c| (0..n).map(|i| (i >> (c % 3)) % 2).collect()).collect();
    let z_ref: Vec<(&[usize], usize)> = z_cols.iter().map(|v| (v.as_slice(), 2)).collect();
    assert!(fold_strides(&z_ref).is_none());
    let partition = build_strata_partition(&z_ref, n);
    let (starts, rows) = naive_partition(&z_ref, n);
    assert_eq!(partition.starts, starts);
    assert_eq!(partition.rows, rows);
}

#[test]
fn partition_of_small_example() {
    let z1: Vec<usize> = vec![0, 1, 0, 1, 0];
    let z2: Vec<usize> = vec![0, 0, 0, 1, 0];
    let p = build_strata_partition(&[(z1.as_slice(), 2), (z2.as_slice(), 2)], 5);
    // (0,0): rows 0, 2, 4; (1,0): row 1; (1,1): row 3.
    assert_eq!(p.starts, vec![0, 3, 4, 5]);
    assert_eq!(p.rows, vec![0, 2, 4, 1, 3]);
    assert_eq!(p.n_strata(), 3);
    assert_eq!(p.approx_bytes(), 4 * 9);
}

#[test]
fn empty_conditioning_set_is_one_stratum() {
    let p = build_strata_partition(&[], 4);
    assert_eq!(p.starts, vec![0, 4]);
    assert_eq!(p.rows, vec![0, 1, 2, 3]);
    assert_eq!(p.n_strata(), 1);
}

#[test]
fn no_rows_no_strata() {
    let z: Vec<usize> = vec![];
    let p = build_strata_partition(&[(z.as_slice(), 3)], 0);
    assert_eq!(p.starts, vec![0]);
    assert!(p.rows.is_empty());
    assert_eq!(p.n_strata(), 0);
    let empty = StrataPartition { starts: vec![], rows: vec![] };
    assert_eq!(empty.n_strata(), 0);
}

#[test]
fn strides_are_mixed_radix_place_values() {
    let a: Vec<usize> = vec![0, 1];
    let b: Vec<usize> = vec![2, 0];
    let c: Vec<usize> = vec![0, 0];
    // A zero cardinality counts as radix 1.
    let (strides, total) = fold_strides(&[(a.as_slice(), 2), (b.as_slice(), 3), (c.as_slice(), 0)]).unwrap();
    assert_eq!(strides, vec![1, 2, 6]);
    assert_eq!(total, 6);
}

#[test]
fn strata_partition_is_cached_and_order_insensitive() {
    let ds = Dataset::from_columns(vec![
        col("x", ColumnKind::Discrete, &[1., 2., 1., 2., 1., 2.]),
        col("z1", ColumnKind::Discrete, &[1., 1., 2., 2., 1., 2.]),
        col("z2", ColumnKind::Discrete, &[2., 1., 2., 1., 1., 2.]),
    ])
    .unwrap();
    let mut cache = StrataCacheInner::default();
    let a = cache.strata_partition(&ds, &[1, 2]).unwrap();
    let b = cache.strata_partition(&ds, &[1, 2]).unwrap();
    let c = cache.strata_partition(&ds, &[2, 1]).unwrap();
    assert!(Arc::ptr_eq(&a, &b), "repeat query must hit the cache");
    assert!(Arc::ptr_eq(&a, &c), "z order must not matter");
    // A continuous column in z surfaces the usual WrongColumnKind.
    let ds2 = Dataset::from_columns(vec![
        col("x", ColumnKind::Discrete, &[1., 2.]),
        col("c", ColumnKind::Continuous, &[0.1, 0.2]),
    ])
    .unwrap();
    let mut cache2 = StrataCacheInner::default();
    assert!(matches!(cache2.strata_partition(&ds2, &[1]), Err(CiError::WrongColumnKind(_))));
}

#[test]
fn clone_starts_with_fresh_caches() {
    let ds = Dataset::from_columns(vec![
        col("x", ColumnKind::Discrete, &[1., 2., 1., 2.]),
        col("z", ColumnKind::Discrete, &[1., 1., 2., 2.]),
    ])
    .unwrap();
    let mut cache = StrataCacheInner::default();
    let before = cache.strata_partition(&ds, &[1]).unwrap();
    let cloned = ds.clone();
    let mut clone_cache = StrataCacheInner::default();
    let after = clone_cache.strata_partition(&cloned, &[1]).unwrap();
    // Same content, but the clone rebuilt its own partition.
    assert_eq!(before.starts, after.starts);
    assert_eq!(before.rows, after.rows);
    assert!(!Arc::ptr_eq(&before, &after));
}

#[test]
fn strata_cache_respects_budget() {
    let p = Arc::new(StrataPartition { starts: vec![0, 2, 4], rows: vec![0, 1, 2, 3] });
    let mut inner = StrataCacheInner::default();
    // A zero budget rejects even the first insert (strict `>` boundary).
    assert!(!inner.insert_within_budget(vec![0], &p, 0));
    assert_eq!(inner.bytes(), 0);
    // Budget fits exactly one copy (7 u32s = 28 bytes).
    assert!(inner.insert_within_budget(vec![1], &p, 28));
    assert!(!inner.insert_within_budget(vec![2], &p, 28), "over budget");
    assert!(inner.contains_key(&[1]));
    assert!(!inner.contains_key(&[2]));
}

#[test]
fn cache_charges_each_cached_partition() {
    let p = Arc::new(StrataPartition { starts: vec![0, 1], rows: vec![0] });
    let mut inner = StrataCacheInner::new();
    assert!(inner.insert_within_budget(vec![3], &p, 100));
    assert!(inner.insert_within_budget(vec![4, 5], &p, 100));
    assert_eq!(inner.bytes(), 24);
    let got = inner.get(&[4, 5]).unwrap();
    assert!(Arc::ptr_eq(&got, &p));
    assert!(inner.get(&[5, 4]).is_none());
}

#[test]
fn strata_partition_errors_follow_the_sorted_columns() {
    let ds = Dataset::from_columns(vec![
        col("x", ColumnKind::Discrete, &[1., 2.]),
        col("c", ColumnKind::Continuous, &[0.1, 0.2]),
    ])
    .unwrap();
    let mut cache = StrataCacheInner::default();
    // Out-of-range column together with a continuous one: the continuous
    // column sorts first and decides the error.
    assert!(matches!(cache.strata_partition(&ds, &[7, 1]), Err(CiError::WrongColumnKind(_))));
    assert!(matches!(cache.strata_partition(&ds, &[0, 7]), Err(CiError::UnknownColumn(_))));
    assert_eq!(cache.bytes(), 0);
}

#[test]
fn strata_partition_groups_the_dataset_rows() {
    let ds = Dataset::from_columns(vec![
        col("x", ColumnKind::Discrete, &[1., 2., 1., 2., 1.]),
        col("z", ColumnKind::Discrete, &[7., 3., 7., 3., 5.]),
    ])
    .unwrap();
    let mut cache = StrataCacheInner::default();
    let p = cache.strata_partition(&ds, &[1]).unwrap();
    assert_eq!(p.starts, vec![0, 2, 4, 5]);
    assert_eq!(p.rows, vec![0, 2, 1, 3, 4]);
    assert_eq!(cache.bytes(), p.approx_bytes());
    assert!(cache.contains_key(&[1]));
    assert!(cache.bytes() <= MAX_STRATA_CACHE_BYTES);
}

#[test]
fn hashed_densify_numbers_keys_in_first_seen_order() {
    let (ids, k) = citest::strata::densify_hashed(&vec![40, 7, 40, 1_000_000, 7]);
    assert_eq!(ids, vec![0, 1, 0, 2, 1]);
    assert_eq!(k, 3);
}
