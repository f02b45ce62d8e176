use citest::discrete::ContingencyTable;
use citest::strata::build_strata_partition;

fn table_of(x: &[usize], y: &[usize], kx: usize, ky: usize) -> ContingencyTable {
    let mut t = ContingencyTable::zeros(kx, ky);
    t.tabulate_all(x, y);
    t
}

#[test]
fn zeros_has_the_shape_and_no_counts() {
    let t = ContingencyTable::zeros(2, 3);
    assert_eq!(t.rows(), 2);
    assert_eq!(t.cols(), 3);
    for r in 0..2 {
        for c in 0..3 {
            assert_eq!(t.get(r, c), 0);
        }
    }
}

#[test]
fn tabulate_counts_each_pair() {
    let x = vec![0, 0, 0, 0, 0, 0, 0, 0, 0, 0, 1, 1, 1, 1, 1, 1, 1, 1, 1, 1];
    let y = vec![0, 0, 0, 0, 0, 0, 0, 0, 0, 0, 1, 1, 1, 1, 1, 1, 1, 1, 1, 1];
    let t = table_of(&x, &y, 2, 2);
    assert_eq!(t.get(0, 0), 10);
    assert_eq!(t.get(0, 1), 0);
    assert_eq!(t.get(1, 0), 0);
    assert_eq!(t.get(1, 1), 10);
    let l = t.layout(true).unwrap();
    assert_eq!(l.row_sums, vec![10, 10]);
    assert_eq!(l.col_sums, vec![10, 10]);
    assert_eq!(l.total, 20);
    assert_eq!(l.dof, 1);
    assert!(l.use_yates);
    assert!(!t.layout(false).unwrap().use_yates);
}

#[test]
fn single_category_is_degenerate() {
    let t = table_of(&[0, 0, 0, 0], &[0, 1, 0, 1], 1, 2);
    assert!(t.layout(true).is_none());
}

#[test]
fn empty_table_is_degenerate() {
    let t = table_of(&[], &[], 2, 2);
    assert!(t.layout(false).is_none());
}

#[test]
fn inactive_rows_and_columns_do_not_count_towards_dof() {
    // 3x4 shape, but only rows {0, 2} and columns {1, 3} are observed.
    let t = table_of(&[0, 2, 0, 2], &[1, 3, 3, 1], 3, 4);
    let l = t.layout(true).unwrap();
    assert_eq!(l.row_sums, vec![2, 0, 2]);
    assert_eq!(l.col_sums, vec![0, 2, 0, 2]);
    assert_eq!(l.dof, 1);
    assert!(l.use_yates);
}

#[test]
fn dof_of_a_full_three_by_three() {
    let x = [0, 0, 0, 1, 1, 1, 2, 2, 2];
    let y = [0, 1, 2, 0, 1, 2, 0, 1, 2];
    let l = table_of(&x, &y, 3, 3).layout(true).unwrap();
    assert_eq!(l.dof, 4);
    assert!(!l.use_yates);
    assert_eq!(l.total, 9);
}

#[test]
fn tabulate_stratum_counts_only_its_rows() {
    let x = vec![0, 1, 0, 1, 1];
    let y = vec![1, 1, 0, 0, 1];
    let z = vec![0, 1, 0, 1, 1];
    let p = build_strata_partition(&[(z.as_slice(), 2)], 5);
    let mut t = ContingencyTable::zeros(2, 2);
    t.tabulate_stratum(&x, &y, &p, 1);
    // Stratum 1 holds rows 1, 3, 4: pairs (1,1), (1,0), (1,1).
    assert_eq!(t.get(1, 1), 2);
    assert_eq!(t.get(1, 0), 1);
    assert_eq!(t.get(0, 0), 0);
    assert_eq!(t.get(0, 1), 0);
    t.reset();
    t.tabulate_stratum(&x, &y, &p, 0);
    assert_eq!(t.get(0, 1), 1);
    assert_eq!(t.get(0, 0), 1);
    assert_eq!(t.get(1, 1), 0);
}
