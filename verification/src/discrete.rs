//! Contingency tables over factorized discrete codes: tabulating `(X, Y)`
//! pairs of a set of rows, and the shape facts every power-divergence
//! statistic is computed from (marginals, total, active rows and columns,
//! degrees of freedom, whether Yates' correction applies).

use vstd::prelude::*;

use crate::coding::{first_seen, lemma_same_elements_same_multiset};
use crate::strata::{lemma_rows_permute, lemma_starts_bounded, StrataPartition};

verus! {

/// Sum of a sequence of counts.
pub open spec fn seq_sum(s: Seq<usize>) -> int
    decreases s.len(),
{
    if s.len() == 0 {
        0
    } else {
        seq_sum(s.drop_last()) + s.last()
    }
}

/// Sum of column `b` over the first `m` rows of `t`.
pub open spec fn col_sum(t: Seq<Seq<usize>>, b: int, m: int) -> int
    decreases m,
{
    if m <= 0 {
        0
    } else {
        col_sum(t, b, m - 1) + t[m - 1][b]
    }
}

/// Sum of all counts in the first `m` rows of `t`.
pub open spec fn table_total(t: Seq<Seq<usize>>, m: int) -> int
    decreases m,
{
    if m <= 0 {
        0
    } else {
        table_total(t, m - 1) + seq_sum(t[m - 1])
    }
}

/// Number of positive entries of `s`.
pub open spec fn count_positive(s: Seq<usize>) -> nat
    decreases s.len(),
{
    if s.len() == 0 {
        0
    } else {
        count_positive(s.drop_last()) + if s.last() > 0 { 1nat } else { 0nat }
    }
}

/// Number of the listed rows `idx` whose `(x, y)` codes are `(a, b)`.
pub open spec fn pair_count(x: Seq<usize>, y: Seq<usize>, idx: Seq<int>, a: int, b: int) -> nat
    decreases idx.len(),
{
    if idx.len() == 0 {
        0
    } else {
        pair_count(x, y, idx.drop_last(), a, b) + if x[idx.last()] as int == a && y[idx.last()] as int == b {
            1nat
        } else {
            0nat
        }
    }
}

/// The rows `0..n`.
pub open spec fn all_rows(n: nat) -> Seq<int> {
    Seq::new(n, |i: int| i)
}

/// The rows of stratum `s` of a partition.
pub open spec fn stratum_rows(p: &StrataPartition, s: int) -> Seq<int> {
    p.rows@.subrange(p.starts@[s] as int, p.starts@[s + 1] as int).map_values(|r: u32| r as int)
}

proof fn lemma_seq_sum_update(s: Seq<usize>, j: int, v: usize)
    requires
        0 <= j < s.len(),
    ensures
        seq_sum(s.update(j, v)) == seq_sum(s) - s[j] + v,
    decreases s.len(),
{
    if j < s.len() - 1 {
        lemma_seq_sum_update(s.drop_last(), j, v);
        assert(s.update(j, v).drop_last() =~= s.drop_last().update(j, v));
    } else {
        assert(s.update(j, v).drop_last() =~= s.drop_last());
    }
}

proof fn lemma_seq_sum_nonneg(s: Seq<usize>)
    ensures
        seq_sum(s) >= 0,
        forall|j: int| 0 <= j < s.len() ==> s[j] <= seq_sum(s),
    decreases s.len(),
{
    if s.len() > 0 {
        lemma_seq_sum_nonneg(s.drop_last());
        assert forall|j: int| 0 <= j < s.len() implies s[j] <= seq_sum(s) by {
            if j < s.len() - 1 {
                assert(s[j] == s.drop_last()[j]);
            }
        }
    }
}

proof fn lemma_seq_sum_zeros(n: nat)
    ensures
        seq_sum(Seq::new(n, |i: int| 0usize)) == 0,
    decreases n,
{
    if n > 0 {
        lemma_seq_sum_zeros((n - 1) as nat);
        assert(Seq::new(n, |i: int| 0usize).drop_last() =~= Seq::new((n - 1) as nat, |i: int| 0usize));
    }
}

proof fn lemma_table_total_update(t: Seq<Seq<usize>>, m: int, a: int, row: Seq<usize>)
    requires
        0 <= a < m <= t.len(),
    ensures
        table_total(t.update(a, row), m) == table_total(t, m) - seq_sum(t[a]) + seq_sum(row),
    decreases m,
{
    if a < m - 1 {
        lemma_table_total_update(t, m - 1, a, row);
    } else {
        assert(table_total(t.update(a, row), m - 1) == table_total(t, m - 1)) by {
            lemma_table_total_same(t.update(a, row), t, m - 1);
        }
    }
}

proof fn lemma_table_total_same(t1: Seq<Seq<usize>>, t2: Seq<Seq<usize>>, m: int)
    requires
        0 <= m <= t1.len(),
        m <= t2.len(),
        forall|i: int| 0 <= i < m ==> t1[i] == t2[i],
    ensures
        table_total(t1, m) == table_total(t2, m),
    decreases m,
{
    if m > 0 {
        lemma_table_total_same(t1, t2, m - 1);
    }
}

proof fn lemma_table_total_bounds(t: Seq<Seq<usize>>, m: int)
    requires
        0 <= m <= t.len(),
    ensures
        table_total(t, m) >= 0,
        forall|a: int| 0 <= a < m ==> seq_sum(#[trigger] t[a]) <= table_total(t, m),
    decreases m,
{
    if m > 0 {
        lemma_table_total_bounds(t, m - 1);
        lemma_seq_sum_nonneg(t[m - 1]);
    }
}

proof fn lemma_col_sum_bound(t: Seq<Seq<usize>>, b: int, m: int)
    requires
        0 <= m <= t.len(),
        0 <= b,
        forall|a: int| 0 <= a < m ==> b < (#[trigger] t[a]).len(),
    ensures
        0 <= col_sum(t, b, m) <= table_total(t, m),
    decreases m,
{
    if m > 0 {
        lemma_col_sum_bound(t, b, m - 1);
        lemma_seq_sum_nonneg(t[m - 1]);
    }
}

proof fn lemma_count_positive_bound(s: Seq<usize>)
    ensures
        count_positive(s) <= s.len(),
    decreases s.len(),
{
    if s.len() > 0 {
        lemma_count_positive_bound(s.drop_last());
    }
}

/// Row marginals of a table.
pub open spec fn row_sums_of(t: Seq<Seq<usize>>) -> Seq<usize> {
    Seq::new(t.len(), |a: int| seq_sum(t[a]) as usize)
}

/// Column marginals of a table with `cols` columns.
pub open spec fn col_sums_of(t: Seq<Seq<usize>>, cols: nat) -> Seq<usize> {
    Seq::new(cols, |b: int| col_sum(t, b, t.len() as int) as usize)
}

/// The active entries of a marginal are exactly its non-zero ones: the
/// count of active rows (or columns) is the number of entries above zero,
/// a marginal of 1 included.
pub proof fn lemma_count_positive_counts_nonzero(s: Seq<usize>)
    ensures
        count_positive(s) == s.filter(|v: usize| v > 0).len(),
    decreases s.len(),
{
    reveal(Seq::filter);
    if s.len() > 0 {
        lemma_count_positive_counts_nonzero(s.drop_last());
    }
}

/// The degrees of freedom of a laid-out table are (rows with a non-zero
/// marginal − 1) · (columns with a non-zero marginal − 1).
pub proof fn lemma_active_shape(t: Seq<Seq<usize>>, cols: nat)
    ensures
        count_positive(row_sums_of(t)) == row_sums_of(t).filter(|v: usize| v > 0).len(),
        count_positive(col_sums_of(t, cols)) == col_sums_of(t, cols).filter(|v: usize| v > 0).len(),
{
    lemma_count_positive_counts_nonzero(row_sums_of(t));
    lemma_count_positive_counts_nonzero(col_sums_of(t, cols));
}

/// The `kx × ky` table of pair counts of `(x, y)` over the rows `idx`.
pub open spec fn pair_table(x: Seq<usize>, y: Seq<usize>, idx: Seq<int>, kx: nat, ky: nat) -> Seq<Seq<usize>> {
    Seq::new(kx, |a: int| Seq::new(ky, |b: int| pair_count(x, y, idx, a, b) as usize))
}

/// The transpose of a table with `cols` columns.
pub open spec fn transpose(t: Seq<Seq<usize>>, cols: nat) -> Seq<Seq<usize>> {
    Seq::new(cols, |b: int| Seq::new(t.len(), |a: int| t[a][b]))
}

/// A table whose cells are the pair counts is the pair-count table.
proof fn lemma_cells_are_pair_table(t: Seq<Seq<usize>>, x: Seq<usize>, y: Seq<usize>, idx: Seq<int>, kx: nat, ky: nat)
    requires
        t.len() == kx,
        forall|a: int| 0 <= a < kx ==> (#[trigger] t[a]).len() == ky,
        forall|a: int, b: int| 0 <= a < kx && 0 <= b < ky ==> #[trigger] t[a][b] == pair_count(x, y, idx, a, b),
    ensures
        t == pair_table(x, y, idx, kx, ky),
{
    assert forall|a: int| 0 <= a < kx implies #[trigger] t[a] == pair_table(x, y, idx, kx, ky)[a] by {
        assert(t[a] =~= pair_table(x, y, idx, kx, ky)[a]);
    }
    assert(t =~= pair_table(x, y, idx, kx, ky));
}

/// Counting `(y, x)` pairs is counting `(x, y)` pairs with the roles swapped.
pub proof fn lemma_pair_count_swap(x: Seq<usize>, y: Seq<usize>, idx: Seq<int>, a: int, b: int)
    ensures
        pair_count(y, x, idx, b, a) == pair_count(x, y, idx, a, b),
    decreases idx.len(),
{
    if idx.len() > 0 {
        lemma_pair_count_swap(x, y, idx.drop_last(), a, b);
    }
}

proof fn lemma_column_of_transpose(t: Seq<Seq<usize>>, b: int, m: int)
    requires
        0 <= m <= t.len(),
    ensures
        seq_sum(Seq::new(m as nat, |a: int| t[a][b])) == col_sum(t, b, m),
    decreases m,
{
    if m > 0 {
        assert(Seq::new(m as nat, |a: int| t[a][b]).drop_last() =~= Seq::new((m - 1) as nat, |a: int| t[a][b]));
        lemma_column_of_transpose(t, b, m - 1);
    }
}

proof fn lemma_row_of_transpose(t: Seq<Seq<usize>>, cols: nat, a: int, m: int)
    requires
        0 <= a < t.len(),
        t[a].len() == cols,
        0 <= m <= cols,
    ensures
        col_sum(transpose(t, cols), a, m) == seq_sum(t[a].take(m)),
    decreases m,
{
    if m > 0 {
        lemma_row_of_transpose(t, cols, a, m - 1);
        assert(t[a].take(m).drop_last() =~= t[a].take(m - 1));
    }
}

/// The marginals of a transposed table are those of the table, swapped: its
/// row sums are the table's column sums and its column sums the table's row
/// sums.
pub proof fn lemma_transpose_marginals(t: Seq<Seq<usize>>, cols: nat)
    requires
        forall|a: int| 0 <= a < t.len() ==> (#[trigger] t[a]).len() == cols,
    ensures
        row_sums_of(transpose(t, cols)) == col_sums_of(t, cols),
        col_sums_of(transpose(t, cols), t.len()) == row_sums_of(t),
{
    let tt = transpose(t, cols);
    assert forall|b: int| 0 <= b < cols implies #[trigger] row_sums_of(tt)[b] == col_sums_of(t, cols)[b] by {
        assert(tt[b] =~= Seq::new(t.len(), |a: int| t[a][b]));
        lemma_column_of_transpose(t, b, t.len() as int);
    }
    assert forall|a: int| 0 <= a < t.len() implies #[trigger] col_sums_of(tt, t.len())[a] == row_sums_of(t)[a] by {
        lemma_row_of_transpose(t, cols, a, cols as int);
        assert(t[a].take(cols as int) =~= t[a]);
    }
    assert(row_sums_of(tt) =~= col_sums_of(t, cols));
    assert(col_sums_of(tt, t.len()) =~= row_sums_of(t));
}

/// Swapping the roles of `x` and `y` transposes their table of pair counts,
/// so the row marginals of one are the column marginals of the other: both
/// tables have the same active shape, degrees of freedom and Yates decision.
pub proof fn lemma_swap_transposes(x: Seq<usize>, y: Seq<usize>, idx: Seq<int>, kx: nat, ky: nat)
    ensures
        pair_table(y, x, idx, ky, kx) == transpose(pair_table(x, y, idx, kx, ky), ky),
        row_sums_of(pair_table(y, x, idx, ky, kx)) == col_sums_of(pair_table(x, y, idx, kx, ky), ky),
        col_sums_of(pair_table(y, x, idx, ky, kx), kx) == row_sums_of(pair_table(x, y, idx, kx, ky)),
{
    let t = pair_table(x, y, idx, kx, ky);
    let u = pair_table(y, x, idx, ky, kx);
    assert forall|b: int, a: int| 0 <= b < ky && 0 <= a < kx implies #[trigger] u[b][a] == transpose(t, ky)[b][a] by {
        lemma_pair_count_swap(x, y, idx, a, b);
    }
    assert forall|b: int| 0 <= b < ky implies #[trigger] u[b] == transpose(t, ky)[b] by {
        assert(u[b] =~= transpose(t, ky)[b]);
    }
    assert(u =~= transpose(t, ky));
    lemma_transpose_marginals(t, ky);
}

/// Removing position `j` of the rows takes that row's pair out of the count.
proof fn lemma_pair_count_remove(x: Seq<usize>, y: Seq<usize>, idx: Seq<int>, j: int, a: int, b: int)
    requires
        0 <= j < idx.len(),
    ensures
        pair_count(x, y, idx, a, b) == pair_count(x, y, idx.remove(j), a, b) + if x[idx[j]] as int == a
            && y[idx[j]] as int == b {
            1nat
        } else {
            0nat
        },
    decreases idx.len(),
{
    if j == idx.len() - 1 {
        assert(idx.remove(j) =~= idx.drop_last());
    } else {
        lemma_pair_count_remove(x, y, idx.drop_last(), j, a, b);
        assert(idx.remove(j).drop_last() =~= idx.drop_last().remove(j));
        assert(idx.remove(j).last() == idx.last());
    }
}

/// The pair count over a list of rows depends only on which rows it lists,
/// and how often: not on their order.
pub proof fn lemma_pair_count_order_free(x: Seq<usize>, y: Seq<usize>, i1: Seq<int>, i2: Seq<int>, a: int, b: int)
    requires
        i1.to_multiset() == i2.to_multiset(),
    ensures
        pair_count(x, y, i1, a, b) == pair_count(x, y, i2, a, b),
    decreases i1.len(),
{
    broadcast use vstd::seq_lib::group_to_multiset_ensures;
    broadcast use vstd::multiset::group_multiset_axioms;

    if i1.len() == 0 {
        assert(i2.to_multiset().len() == 0);
        assert(i2.len() == 0);
    } else {
        let e = i1.last();
        assert(i1.to_multiset().contains(e)) by {
            assert(i1.contains(e)) by {
                assert(i1[i1.len() - 1] == e);
            }
        }
        assert(i2.contains(e));
        let j = choose|j: int| 0 <= j < i2.len() && i2[j] == e;
        let rest = i2.remove(j);
        assert(i1.drop_last().push(e) =~= i1);
        assert(i1.drop_last().to_multiset() =~= i1.to_multiset().remove(e));
        assert(rest.to_multiset() =~= i2.to_multiset().remove(e));
        lemma_pair_count_order_free(x, y, i1.drop_last(), rest, a, b);
        lemma_pair_count_remove(x, y, i2, j, a, b);
    }
}

/// Counting pairs of re-indexed codes over the first rows counts the
/// given codes over the re-indexing.
pub proof fn lemma_pair_count_reindex(
    x: Seq<usize>,
    y: Seq<usize>,
    x2: Seq<usize>,
    y2: Seq<usize>,
    perm: Seq<int>,
    m: int,
    a: int,
    b: int,
)
    requires
        0 <= m <= perm.len(),
        forall|i: int| 0 <= i < perm.len() ==> x2[i] == x[#[trigger] perm[i]] && y2[i] == y[perm[i]],
    ensures
        pair_count(x2, y2, all_rows(m as nat), a, b) == pair_count(x, y, perm.take(m), a, b),
    decreases m,
{
    if m > 0 {
        lemma_pair_count_reindex(x, y, x2, y2, perm, m - 1, a, b);
        assert(all_rows(m as nat).drop_last() =~= all_rows((m - 1) as nat));
        assert(perm.take(m).drop_last() =~= perm.take(m - 1));
        assert(perm.take(m).last() == perm[m - 1]);
    }
}

/// The pair counts of the first `m` strata of a partition, added up.
pub open spec fn strata_pair_count(x: Seq<usize>, y: Seq<usize>, p: &StrataPartition, m: int, a: int, b: int) -> nat
    decreases m,
{
    if m <= 0 {
        0
    } else {
        strata_pair_count(x, y, p, m - 1, a, b) + pair_count(x, y, stratum_rows(p, m - 1), a, b)
    }
}

/// Counting over two lists of rows one after the other adds their counts.
proof fn lemma_pair_count_concat(x: Seq<usize>, y: Seq<usize>, i1: Seq<int>, i2: Seq<int>, a: int, b: int)
    ensures
        pair_count(x, y, i1 + i2, a, b) == pair_count(x, y, i1, a, b) + pair_count(x, y, i2, a, b),
    decreases i2.len(),
{
    if i2.len() == 0 {
        assert(i1 + i2 =~= i1);
    } else {
        lemma_pair_count_concat(x, y, i1, i2.drop_last(), a, b);
        assert((i1 + i2).drop_last() =~= i1 + i2.drop_last());
        assert((i1 + i2).last() == i2.last());
    }
}

/// The rows of the first `m` strata, in partition order.
spec fn rows_before(p: &StrataPartition, m: int) -> Seq<int> {
    p.rows@.subrange(0, p.starts@[m] as int).map_values(|r: u32| r as int)
}

proof fn lemma_strata_prefix<K>(x: Seq<usize>, y: Seq<usize>, p: &StrataPartition, keys: Seq<K>, m: int, a: int, b: int)
    requires
        p.groups(keys),
        0 <= m <= first_seen(keys).len(),
    ensures
        pair_count(x, y, rows_before(p, m), a, b) == strata_pair_count(x, y, p, m, a, b),
    decreases m,
{
    if m == 0 {
        assert(rows_before(p, 0) =~= Seq::<int>::empty());
    } else {
        lemma_strata_prefix(x, y, p, keys, m - 1, a, b);
        lemma_starts_bounded(p.starts@, p.rows@, keys, m);
        assert(p.starts@[m - 1] <= p.starts@[m]);
        assert(rows_before(p, m) =~= rows_before(p, m - 1) + stratum_rows(p, m - 1));
        lemma_pair_count_concat(x, y, rows_before(p, m - 1), stratum_rows(p, m - 1), a, b);
    }
}

/// The strata of a partition count every row exactly once: their pair
/// counts add up to the count over all rows, so the per-stratum tables add
/// up to the unconditional table.
pub proof fn lemma_strata_tables_add_up<K>(x: Seq<usize>, y: Seq<usize>, p: &StrataPartition, keys: Seq<K>, a: int, b: int)
    requires
        p.groups(keys),
    ensures
        strata_pair_count(x, y, p, p.starts@.len() - 1, a, b) == pair_count(x, y, all_rows(keys.len()), a, b),
{
    let k = first_seen(keys).len() as int;
    let n = keys.len();
    lemma_strata_prefix(x, y, p, keys, k, a, b);
    let rows = p.rows@.map_values(|r: u32| r as int);
    assert(rows_before(p, k) =~= rows);
    lemma_rows_permute(p.starts@, p.rows@, keys);
    assert(rows.no_duplicates()) by {
        assert forall|i: int, j: int| 0 <= i < rows.len() && 0 <= j < rows.len() && i != j implies rows[i] != rows[j] by {
            assert(p.rows@[i] != p.rows@[j]);
        }
    }
    let all = all_rows(n);
    assert forall|v: int| rows.contains(v) <==> all.contains(v) by {
        if rows.contains(v) {
            let i = choose|i: int| 0 <= i < rows.len() && rows[i] == v;
            assert(all[v] == v);
        }
        if all.contains(v) {
            let i = choose|i: int| 0 <= i < all.len() && all[i] == v;
            let u = v as u32;
            assert(p.rows@.to_multiset().count(u) == 1);
            assert(p.rows@.to_multiset().count(u) > 0);
            broadcast use vstd::seq_lib::group_to_multiset_ensures;
            assert(p.rows@.contains(u));
            let j = choose|j: int| 0 <= j < p.rows@.len() && p.rows@[j] == u;
            assert(rows[j] == v);
        }
    }
    lemma_same_elements_same_multiset(rows, all);
    lemma_pair_count_order_free(x, y, rows, all, a, b);
}

/// A dense `rows × cols` contingency table of counts.
#[derive(Debug)]
pub struct ContingencyTable {
    rows: usize,
    cols: usize,
    counts: Vec<Vec<usize>>,
}

/// The shape facts of a non-degenerate table: marginals, total, degrees of
/// freedom over the active sub-table, and whether Yates' correction applies.
#[derive(Debug)]
pub struct TableLayout {
    /// Row marginals.
    pub row_sums: Vec<usize>,
    /// Column marginals.
    pub col_sums: Vec<usize>,
    /// Sum of all counts.
    pub total: usize,
    /// `(active rows − 1) · (active columns − 1)`.
    pub dof: usize,
    /// Yates' correction was asked for and the active table is 2×2.
    pub use_yates: bool,
}

impl ContingencyTable {
    /// The counts, row by row.
    pub closed spec fn cells(&self) -> Seq<Seq<usize>> {
        Seq::new(self.counts@.len(), |a: int| self.counts@[a]@)
    }

    /// Number of rows.
    pub closed spec fn n_rows_spec(&self) -> nat {
        self.rows as nat
    }

    /// Number of columns.
    pub closed spec fn n_cols_spec(&self) -> nat {
        self.cols as nat
    }

    /// Shape consistency: `rows` rows of `cols` counts, with `rows * cols`
    /// and the sum of all counts within `usize`.
    pub closed spec fn wf(&self) -> bool {
        &&& self.counts@.len() == self.rows
        &&& forall|a: int| 0 <= a < self.rows ==> (#[trigger] self.counts@[a])@.len() == self.cols
        &&& self.rows * self.cols <= usize::MAX
        &&& table_total(self.cells(), self.rows as int) <= usize::MAX
    }

    /// Allocate a zeroed `rows × cols` table.
    pub fn zeros(rows: usize, cols: usize) -> (res: Self)
        requires
            rows * cols <= usize::MAX,
        ensures
            res.wf(),
            res.n_rows_spec() == rows,
            res.n_cols_spec() == cols,
            res.cells().len() == rows,
            forall|a: int, b: int| 0 <= a < rows && 0 <= b < cols ==> #[trigger] res.cells()[a][b] == 0,
    {
        let mut counts: Vec<Vec<usize>> = Vec::with_capacity(rows);
        let mut a: usize = 0;
        while a < rows
            invariant
                a <= rows,
                counts@.len() == a,
                forall|i: int| 0 <= i < a ==> (#[trigger] counts@[i])@ == Seq::new(cols as nat, |j: int| 0usize),
            decreases rows - a,
        {
            let row: Vec<usize> = vec![0usize; cols];
            proof {
                assert(row@ =~= Seq::new(cols as nat, |j: int| 0usize));
            }
            counts.push(row);
            a += 1;
        }
        proof {
            let cs = Seq::new(counts@.len(), |a: int| counts@[a]@);
            lemma_zero_total(cs, rows as int, cols as nat);
        }
        ContingencyTable { rows, cols, counts }
    }

    /// Zero every count, keeping the shape.
    pub fn reset(&mut self)
        requires
            old(self).wf(),
        ensures
            final(self).wf(),
            final(self).n_rows_spec() == old(self).n_rows_spec(),
            final(self).n_cols_spec() == old(self).n_cols_spec(),
            forall|a: int, b: int| 0 <= a < old(self).n_rows_spec() && 0 <= b < old(self).n_cols_spec()
                ==> #[trigger] final(self).cells()[a][b] == 0,
    {
        proof {
        }
        *self = ContingencyTable::zeros(self.rows, self.cols);
    }

    /// Number of rows.
    pub fn rows(&self) -> (res: usize)
        ensures
            res == self.n_rows_spec(),
    {
        self.rows
    }

    /// Number of columns.
    pub fn cols(&self) -> (res: usize)
        ensures
            res == self.n_cols_spec(),
    {
        self.cols
    }

    /// The count in cell `(r, c)`.
    pub fn get(&self, r: usize, c: usize) -> (res: usize)
        requires
            self.wf(),
            r < self.n_rows_spec(),
            c < self.n_cols_spec(),
        ensures
            res == self.cells()[r as int][c as int],
    {
        proof {
        }
        self.counts[r][c]
    }
}

proof fn lemma_zero_total(t: Seq<Seq<usize>>, m: int, cols: nat)
    requires
        0 <= m <= t.len(),
        forall|i: int| 0 <= i < m ==> #[trigger] t[i] == Seq::new(cols, |j: int| 0usize),
    ensures
        table_total(t, m) == 0,
    decreases m,
{
    if m > 0 {
        lemma_zero_total(t, m - 1, cols);
        lemma_seq_sum_zeros(cols);
    }
}


impl ContingencyTable {
    /// Add one observation to cell `(r, c)`.
    fn add(&mut self, r: usize, c: usize)
        requires
            old(self).wf(),
            r < old(self).n_rows_spec(),
            c < old(self).n_cols_spec(),
            table_total(old(self).cells(), old(self).n_rows_spec() as int) < usize::MAX,
        ensures
            final(self).wf(),
            final(self).n_rows_spec() == old(self).n_rows_spec(),
            final(self).n_cols_spec() == old(self).n_cols_spec(),
            final(self).cells() == old(self).cells().update(
                r as int,
                old(self).cells()[r as int].update(c as int, (old(self).cells()[r as int][c as int] + 1) as usize),
            ),
            table_total(final(self).cells(), final(self).n_rows_spec() as int)
                == table_total(old(self).cells(), old(self).n_rows_spec() as int) + 1,
    {
        proof {
        }
        let ghost before = self.cells();
        let ghost m = self.rows as int;
        proof {
            lemma_table_total_bounds(before, m);
            lemma_seq_sum_nonneg(before[r as int]);
        }
        let v = self.counts[r][c];
        let ghost row = before[r as int].update(c as int, (v + 1) as usize);
        proof {
            lemma_seq_sum_update(before[r as int], c as int, (v + 1) as usize);
            lemma_table_total_update(before, m, r as int, row);
            assert(before.update(r as int, row).len() == m);
        }
        self.counts[r].set(c, v + 1);
        proof {
            assert(self.cells() =~= before.update(r as int, row));
        }
    }

    /// Count the `(x, y)` codes of the rows `0..x_codes.len()`, over the
    /// table's full shape (the unconditional table when freshly reset).
    pub fn tabulate_all(&mut self, x_codes: &[usize], y_codes: &[usize])
        requires
            old(self).wf(),
            x_codes@.len() == y_codes@.len(),
            forall|i: int| 0 <= i < x_codes@.len() ==> (#[trigger] x_codes@[i] as int) < old(self).n_rows_spec(),
            forall|i: int| 0 <= i < y_codes@.len() ==> (#[trigger] y_codes@[i] as int) < old(self).n_cols_spec(),
        ensures
            final(self).wf(),
            final(self).n_rows_spec() == old(self).n_rows_spec(),
            final(self).n_cols_spec() == old(self).n_cols_spec(),
            forall|a: int, b: int| 0 <= a < old(self).n_rows_spec() && 0 <= b < old(self).n_cols_spec()
                ==> #[trigger] final(self).cells()[a][b] == pair_count(x_codes@, y_codes@, all_rows(x_codes@.len()), a, b),
            final(self).cells() == pair_table(x_codes@, y_codes@, all_rows(x_codes@.len()), old(self).n_rows_spec(), old(self).n_cols_spec()),
            table_total(final(self).cells(), final(self).n_rows_spec() as int) == x_codes@.len(),
    {
        self.reset();
        proof {
            assert forall|i: int| 0 <= i < self.rows implies #[trigger] self.cells()[i] == Seq::new(self.cols as nat, |j: int| 0usize) by {
                assert(self.cells()[i] =~= Seq::new(self.cols as nat, |j: int| 0usize));
            }
            lemma_zero_total(self.cells(), self.rows as int, self.cols as nat);
        }
        let ghost idx = all_rows(x_codes@.len());
        let mut i: usize = 0;
        while i < x_codes.len()
            invariant
                i <= x_codes@.len(),
                x_codes@.len() == y_codes@.len(),
                idx == all_rows(x_codes@.len()),
                self.n_rows_spec() == old(self).n_rows_spec(),
                self.n_cols_spec() == old(self).n_cols_spec(),
                self.wf(),
                self.cells().len() == self.n_rows_spec(),
                forall|a: int| 0 <= a < self.n_rows_spec() ==> (#[trigger] self.cells()[a]).len() == self.n_cols_spec(),
                forall|j: int| 0 <= j < x_codes@.len() ==> (#[trigger] x_codes@[j] as int) < self.n_rows_spec(),
                forall|j: int| 0 <= j < y_codes@.len() ==> (#[trigger] y_codes@[j] as int) < self.n_cols_spec(),
                forall|a: int, b: int| 0 <= a < self.n_rows_spec() && 0 <= b < self.n_cols_spec()
                    ==> #[trigger] self.cells()[a][b] == pair_count(x_codes@, y_codes@, idx.take(i as int), a, b),
                table_total(self.cells(), self.n_rows_spec() as int) == i,
            decreases x_codes.len() - i,
        {
            let ghost before = self.cells();
            let xa = x_codes[i];
            let yb = y_codes[i];
            proof {
                assert(idx.take(i as int + 1).drop_last() =~= idx.take(i as int));
                assert(idx.take(i as int + 1).last() == i);
            }
            self.add(xa, yb);
            proof {
                    assert forall|a: int, b: int| 0 <= a < self.n_rows_spec() && 0 <= b < self.n_cols_spec()
                    implies #[trigger] self.cells()[a][b] == pair_count(x_codes@, y_codes@, idx.take(i as int + 1), a, b) by {
                    assert(before[a][b] == pair_count(x_codes@, y_codes@, idx.take(i as int), a, b));
                    assert(pair_count(x_codes@, y_codes@, idx.take(i as int + 1), a, b)
                        == pair_count(x_codes@, y_codes@, idx.take(i as int), a, b)
                            + if x_codes@[i as int] as int == a && y_codes@[i as int] as int == b { 1nat } else { 0nat });
                    lemma_table_total_bounds(before, self.n_rows_spec() as int);
                    lemma_seq_sum_nonneg(before[xa as int]);
                    assert(self.cells() == before.update(xa as int, before[xa as int].update(yb as int, (before[xa as int][yb as int] + 1) as usize)));
                    if a == xa {
                        assert(self.cells()[a] == before[a].update(yb as int, (before[a][yb as int] + 1) as usize));
                        if b == yb {
                            assert(self.cells()[a][b] == before[a][b] + 1);
                        } else {
                            assert(self.cells()[a][b] == before[a][b]);
                        }
                    } else {
                        assert(self.cells()[a] == before[a]);
                    }
                }
            }
            i += 1;
        }
        proof {
            assert(idx.take(x_codes@.len() as int) =~= idx);
            lemma_cells_are_pair_table(self.cells(), x_codes@, y_codes@, idx, self.n_rows_spec(), self.n_cols_spec());
        }
    }

    /// Count the `(x, y)` codes of the rows of stratum `s` of `partition`,
    /// over the table's full shape.
    pub fn tabulate_stratum(&mut self, x_codes: &[usize], y_codes: &[usize], partition: &StrataPartition, s: usize)
        requires
            old(self).wf(),
            x_codes@.len() == y_codes@.len(),
            (s as int) + 1 < partition.starts@.len(),
            partition.starts@[s as int] <= partition.starts@[s + 1] <= partition.rows@.len(),
            forall|q: int| partition.starts@[s as int] <= q < partition.starts@[s + 1]
                ==> (#[trigger] partition.rows@[q] as int) < x_codes@.len(),
            forall|i: int| 0 <= i < x_codes@.len() ==> (#[trigger] x_codes@[i] as int) < old(self).n_rows_spec(),
            forall|i: int| 0 <= i < y_codes@.len() ==> (#[trigger] y_codes@[i] as int) < old(self).n_cols_spec(),
        ensures
            final(self).wf(),
            final(self).n_rows_spec() == old(self).n_rows_spec(),
            final(self).n_cols_spec() == old(self).n_cols_spec(),
            forall|a: int, b: int| 0 <= a < old(self).n_rows_spec() && 0 <= b < old(self).n_cols_spec()
                ==> #[trigger] final(self).cells()[a][b] == pair_count(x_codes@, y_codes@, stratum_rows(partition, s as int), a, b),
            final(self).cells() == pair_table(x_codes@, y_codes@, stratum_rows(partition, s as int), old(self).n_rows_spec(), old(self).n_cols_spec()),
            table_total(final(self).cells(), final(self).n_rows_spec() as int)
                == partition.starts@[s + 1] - partition.starts@[s as int],
    {
        self.reset();
        proof {
            assert forall|i: int| 0 <= i < self.rows implies #[trigger] self.cells()[i] == Seq::new(self.cols as nat, |j: int| 0usize) by {
                assert(self.cells()[i] =~= Seq::new(self.cols as nat, |j: int| 0usize));
            }
            lemma_zero_total(self.cells(), self.rows as int, self.cols as nat);
        }
        let n_starts = partition.starts.len();
        let lo = partition.starts[s] as usize;
        let hi = partition.starts[s + 1] as usize;
        let ghost idx = stratum_rows(partition, s as int);
        let mut q: usize = lo;
        while q < hi
            invariant
                lo <= q <= hi,
                hi <= partition.rows@.len(),
                lo == partition.starts@[s as int],
                hi == partition.starts@[s + 1],
                idx == stratum_rows(partition, s as int),
                idx.len() == hi - lo,
                x_codes@.len() == y_codes@.len(),
                forall|t: int| lo <= t < hi ==> (#[trigger] partition.rows@[t] as int) < x_codes@.len(),
                self.n_rows_spec() == old(self).n_rows_spec(),
                self.n_cols_spec() == old(self).n_cols_spec(),
                self.wf(),
                self.cells().len() == self.n_rows_spec(),
                forall|a: int| 0 <= a < self.n_rows_spec() ==> (#[trigger] self.cells()[a]).len() == self.n_cols_spec(),
                forall|j: int| 0 <= j < x_codes@.len() ==> (#[trigger] x_codes@[j] as int) < self.n_rows_spec(),
                forall|j: int| 0 <= j < y_codes@.len() ==> (#[trigger] y_codes@[j] as int) < self.n_cols_spec(),
                forall|a: int, b: int| 0 <= a < self.n_rows_spec() && 0 <= b < self.n_cols_spec()
                    ==> #[trigger] self.cells()[a][b] == pair_count(x_codes@, y_codes@, idx.take(q - lo), a, b),
                table_total(self.cells(), self.n_rows_spec() as int) == q - lo,
            decreases hi - q,
        {
            let ghost before = self.cells();
            let row = partition.rows[q] as usize;
            let xa = x_codes[row];
            let yb = y_codes[row];
            proof {
                let k = q - lo;
                assert(idx.take(k + 1).drop_last() =~= idx.take(k));
                assert(idx.take(k + 1).last() == idx[k]);
                assert(idx[k] == partition.rows@[q as int] as int);
            }
            self.add(xa, yb);
            proof {
                    assert forall|a: int, b: int| 0 <= a < self.n_rows_spec() && 0 <= b < self.n_cols_spec()
                    implies #[trigger] self.cells()[a][b] == pair_count(x_codes@, y_codes@, idx.take(q + 1 - lo), a, b) by {
                    assert(before[a][b] == pair_count(x_codes@, y_codes@, idx.take(q - lo), a, b));
                    assert(pair_count(x_codes@, y_codes@, idx.take(q + 1 - lo), a, b)
                        == pair_count(x_codes@, y_codes@, idx.take(q - lo), a, b)
                            + if x_codes@[row as int] as int == a && y_codes@[row as int] as int == b { 1nat } else { 0nat });
                    lemma_table_total_bounds(before, self.n_rows_spec() as int);
                    lemma_seq_sum_nonneg(before[xa as int]);
                    assert(self.cells() == before.update(xa as int, before[xa as int].update(yb as int, (before[xa as int][yb as int] + 1) as usize)));
                    if a == xa {
                        assert(self.cells()[a] == before[a].update(yb as int, (before[a][yb as int] + 1) as usize));
                        if b == yb {
                            assert(self.cells()[a][b] == before[a][b] + 1);
                        } else {
                            assert(self.cells()[a][b] == before[a][b]);
                        }
                    } else {
                        assert(self.cells()[a] == before[a]);
                    }
                }
            }
            q += 1;
        }
        proof {
            assert(idx.take(hi - lo) =~= idx);
            lemma_cells_are_pair_table(self.cells(), x_codes@, y_codes@, idx, self.n_rows_spec(), self.n_cols_spec());
        }
    }
}


proof fn lemma_seq_sum_prefix(s: Seq<usize>, j: int)
    requires
        0 <= j <= s.len(),
    ensures
        0 <= seq_sum(s.take(j)) <= seq_sum(s),
    decreases s.len(),
{
    lemma_seq_sum_nonneg(s.take(j));
    if j == s.len() {
        assert(s.take(j) =~= s);
    } else {
        assert(s.take(j) =~= s.drop_last().take(j));
        lemma_seq_sum_prefix(s.drop_last(), j);
        lemma_seq_sum_nonneg(s);
    }
}

proof fn lemma_table_total_monotone(t: Seq<Seq<usize>>, m1: int, m2: int)
    requires
        0 <= m1 <= m2 <= t.len(),
    ensures
        table_total(t, m1) <= table_total(t, m2),
    decreases m2 - m1,
{
    if m1 < m2 {
        lemma_table_total_monotone(t, m1, m2 - 1);
        lemma_seq_sum_nonneg(t[m2 - 1]);
    }
}

impl ContingencyTable {
    /// The shape facts of the table, or `None` when it is degenerate for
    /// testing: a zero total, or fewer than two active rows or columns
    /// (those with a non-zero marginal). Degrees of freedom are counted over
    /// the active sub-table, and Yates' correction applies, when asked for,
    /// exactly when the active table is 2×2.
    pub fn layout(&self, yates: bool) -> (res: Option<TableLayout>)
        requires
            self.wf(),
        ensures
            res is None <==> ({
                let t = self.cells();
                ||| table_total(t, self.n_rows_spec() as int) == 0
                ||| count_positive(row_sums_of(t)) < 2
                ||| count_positive(col_sums_of(t, self.n_cols_spec())) < 2
            }),
            res matches Some(l) ==> {
                let t = self.cells();
                let ar = count_positive(row_sums_of(t));
                let ac = count_positive(col_sums_of(t, self.n_cols_spec()));
                &&& l.row_sums@ == row_sums_of(t)
                &&& l.col_sums@ == col_sums_of(t, self.n_cols_spec())
                &&& l.total == table_total(t, self.n_rows_spec() as int)
                &&& l.dof == (ar - 1) * (ac - 1)
                &&& l.use_yates == (yates && l.dof == 1)
            },
    {
        let ghost t = self.cells();
        let rows = self.rows;
        let cols = self.cols;
        proof {
            lemma_table_total_bounds(t, rows as int);
        }
        // Row marginals.
        let mut row_sums: Vec<usize> = Vec::with_capacity(rows);
        let mut a: usize = 0;
        while a < rows
            invariant
                self.wf(),
                t == self.cells(),
                rows == self.n_rows_spec(),
                cols == self.n_cols_spec(),
                a <= rows,
                table_total(t, rows as int) <= usize::MAX,
                forall|i: int| 0 <= i < rows ==> seq_sum(#[trigger] t[i]) <= table_total(t, rows as int),
                row_sums@.len() == a,
                forall|i: int| 0 <= i < a ==> #[trigger] row_sums@[i] == seq_sum(t[i]),
            decreases rows - a,
        {
            let mut acc: usize = 0;
            let mut b: usize = 0;
            while b < cols
                invariant
                    self.wf(),
                    t == self.cells(),
                    a < rows,
                    rows == self.n_rows_spec(),
                    cols == self.n_cols_spec(),
                    b <= cols,
                    t[a as int].len() == cols,
                    seq_sum(t[a as int]) <= usize::MAX,
                    acc == seq_sum(t[a as int].take(b as int)),
                decreases cols - b,
            {
                proof {
                    assert(t[a as int].take(b as int + 1).drop_last() =~= t[a as int].take(b as int));
                    lemma_seq_sum_prefix(t[a as int], b as int + 1);
                }
                acc = acc + self.counts[a][b];
                b += 1;
            }
            proof {
                assert(t[a as int].take(cols as int) =~= t[a as int]);
            }
            row_sums.push(acc);
            a += 1;
        }
        proof {
            assert(row_sums@ =~= row_sums_of(t));
        }
        // Column marginals.
        let mut col_sums: Vec<usize> = vec![0usize; cols];
        let mut a: usize = 0;
        while a < rows
            invariant
                self.wf(),
                t == self.cells(),
                rows == self.n_rows_spec(),
                cols == self.n_cols_spec(),
                a <= rows,
                table_total(t, rows as int) <= usize::MAX,
                col_sums@.len() == cols,
                forall|j: int| 0 <= j < cols ==> #[trigger] col_sums@[j] == col_sum(t, j, a as int),
            decreases rows - a,
        {
            let mut b: usize = 0;
            while b < cols
                invariant
                    self.wf(),
                    t == self.cells(),
                    a < rows,
                    rows == self.n_rows_spec(),
                    cols == self.n_cols_spec(),
                    b <= cols,
                    table_total(t, rows as int) <= usize::MAX,
                    col_sums@.len() == cols,
                    forall|j: int| 0 <= j < b ==> #[trigger] col_sums@[j] == col_sum(t, j, a as int + 1),
                    forall|j: int| b <= j < cols ==> #[trigger] col_sums@[j] == col_sum(t, j, a as int),
                decreases cols - b,
            {
                proof {
                    lemma_col_sum_bound(t, b as int, a as int + 1);
                    lemma_table_total_monotone(t, a as int + 1, rows as int);
                }
                let v = col_sums[b] + self.counts[a][b];
                col_sums.set(b, v);
                b += 1;
            }
            a += 1;
        }
        proof {
            assert(col_sums@ =~= col_sums_of(t, cols as nat));
        }
        // Total.
        let mut total: usize = 0;
        let mut a: usize = 0;
        while a < rows
            invariant
                self.wf(),
                t == self.cells(),
                rows == self.n_rows_spec(),
                a <= rows,
                row_sums@ == row_sums_of(t),
                table_total(t, rows as int) <= usize::MAX,
                total == table_total(t, a as int),
            decreases rows - a,
        {
            proof {
                lemma_table_total_monotone(t, a as int + 1, rows as int);
                lemma_seq_sum_nonneg(t[a as int]);
            }
            total = total + row_sums[a];
            a += 1;
        }
        if total == 0 {
            return None;
        }
        let active_rows = count_positive_of(&row_sums);
        let active_cols = count_positive_of(&col_sums);
        if active_rows < 2 || active_cols < 2 {
            return None;
        }
        proof {
            lemma_count_positive_bound(row_sums@);
            lemma_count_positive_bound(col_sums@);
            let ar = active_rows as int;
            let ac = active_cols as int;
            assert((ar - 1) * (ac - 1) <= rows * cols) by (nonlinear_arith)
                requires
                    2 <= ar <= rows,
                    2 <= ac <= cols,
            ;
        }
        let dof = (active_rows - 1) * (active_cols - 1);
        let use_yates = yates && dof == 1;
        Some(TableLayout { row_sums, col_sums, total, dof, use_yates })
    }
}

/// Number of positive entries of `s`.
fn count_positive_of(s: &Vec<usize>) -> (res: usize)
    ensures
        res == count_positive(s@),
{
    let mut c: usize = 0;
    let mut i: usize = 0;
    while i < s.len()
        invariant
            i <= s@.len(),
            c == count_positive(s@.take(i as int)),
            c <= i,
        decreases s.len() - i,
    {
        proof {
            assert(s@.take(i as int + 1).drop_last() =~= s@.take(i as int));
        }
        if s[i] > 0 {
            c += 1;
        }
        i += 1;
    }
    proof {
        assert(s@.take(s@.len() as int) =~= s@);
    }
    c
}

} // verus!
