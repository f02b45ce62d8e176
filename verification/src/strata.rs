//! Grouping the rows of a dataset by the observed combinations of a
//! conditioning set `Z` (its strata).
//!
//! Strata are identified by a mixed-radix fold of the per-row `Z` codes (no
//! per-row allocation) and numbered in first-seen order; when the radix
//! product `∏ k_zi` overflows `usize`, rows are grouped by comparing their
//! code tuples directly. Rows are then grouped with a stable counting sort.

use std::collections::HashMap;

use vstd::prelude::*;
use vstd::relations::{sorted_by, total_ordering};
use vstd::set_lib::{lemma_int_range, lemma_subset_equality, set_int_range};

use crate::coding::{first_seen, is_first_seen_ids, lemma_first_seen, lemma_first_seen_take, lemma_ids_of_mapped_keys};
use crate::counting::{group_by_id, groups_by_id};

verus! {

broadcast use vstd::std_specs::hash::group_hash_axioms;

/// When the folded space (`∏ k_zi`) fits within this many times the row count
/// plus slack, use a flat sentinel remap array instead of a `HashMap`.
pub const DENSE_REMAP_SLACK: usize = 4096;

/// Rows grouped by the observed combinations of a conditioning set `Z`:
/// `rows[starts[s] .. starts[s + 1]]` are the row indices of stratum `s`
/// (increasing row order within each stratum).
#[derive(Debug)]
pub struct StrataPartition {
    /// Start of each stratum in `rows`, plus the total row count at the end.
    pub starts: Vec<u32>,
    /// Row indices, grouped by stratum.
    pub rows: Vec<u32>,
}

/// The conditioning tuple of row `r`: the code of each `Z` column at `r`.
pub open spec fn row_tuple(z: Seq<(&[usize], usize)>, r: int) -> Seq<usize> {
    Seq::new(z.len(), |j: int| z[j].0@[r])
}

/// The conditioning tuples of rows `0..n`.
pub open spec fn row_tuples(z: Seq<(&[usize], usize)>, n: nat) -> Seq<Seq<usize>> {
    Seq::new(n, |r: int| row_tuple(z, r))
}

/// Every `Z` column holds `n` codes, each below its cardinality.
pub open spec fn z_columns_fit(z: Seq<(&[usize], usize)>, n: nat) -> bool {
    &&& forall|j: int| 0 <= j < z.len() ==> (#[trigger] z[j]).0@.len() == n
    &&& forall|j: int, r: int| 0 <= j < z.len() && 0 <= r < n ==> #[trigger] z[j].0@[r] < z[j].1
}

/// `starts`/`rows` group the rows `0..keys.len()` by key: block `s` (the
/// entries `starts[s]..starts[s + 1]` of `rows`) holds exactly the rows whose
/// key is the `s`-th distinct key in first-seen order, in increasing order,
/// and `rows` is a permutation of the rows.
pub open spec fn groups_by_key<K>(starts: Seq<u32>, rows: Seq<u32>, keys: Seq<K>) -> bool {
    let d = first_seen(keys);
    let k = d.len();
    let n = keys.len();
    &&& starts.len() == k + 1
    &&& rows.len() == n
    &&& starts[0] == 0
    &&& starts[k as int] == n
    &&& forall|s: int| 0 <= s < k ==> #[trigger] starts[s] <= starts[s + 1]
    &&& forall|p: int| 0 <= p < n ==> (#[trigger] rows[p] as int) < n
    &&& forall|p: int, q: int| 0 <= p < n && 0 <= q < n && p != q ==> #[trigger] rows[p] != #[trigger] rows[q]
    &&& forall|s: int, p: int|
        #![trigger starts[s], rows[p]]
        0 <= s < k && starts[s] <= p < starts[s + 1] ==> keys[rows[p] as int] == d[s]
    &&& forall|s: int, p: int, q: int|
        #![trigger starts[s], rows[p], rows[q]]
        0 <= s < k && starts[s] <= p < q < starts[s + 1] ==> rows[p] < rows[q]
}

impl StrataPartition {
    /// The partition groups the rows `0..keys.len()` by `keys`.
    pub open spec fn groups<K>(&self, keys: Seq<K>) -> bool {
        groups_by_key(self.starts@, self.rows@, keys)
    }

    /// Number of observed strata.
    pub fn n_strata(&self) -> (res: usize)
        ensures
            res == if self.starts@.len() == 0 { 0 } else { self.starts@.len() - 1 },
    {
        self.starts.len().saturating_sub(1)
    }

    /// Approximate heap size, for a cache budget: four bytes per stored
    /// `u32`.
    pub fn approx_bytes(&self) -> (res: usize)
        requires
            4 * (self.starts@.len() + self.rows@.len()) <= usize::MAX,
        ensures
            res == 4 * (self.starts@.len() + self.rows@.len()),
    {
        4 * (self.starts.len() + self.rows.len())
    }
}

/// The radix of each conditioning column: its cardinality, or 1 when empty.
pub open spec fn radix_of(card: usize) -> nat {
    if card == 0 {
        1
    } else {
        card as nat
    }
}

/// Cardinalities of the conditioning columns.
pub open spec fn z_cards(z: Seq<(&[usize], usize)>) -> Seq<usize> {
    Seq::new(z.len(), |j: int| z[j].1)
}

/// Mixed-radix place value of digit `m`: `∏_{j < m} radix_of(cards[j])`.
pub open spec fn place_value(cards: Seq<usize>, m: int) -> nat
    decreases m,
{
    if m <= 0 {
        1
    } else {
        place_value(cards, m - 1) * radix_of(cards[m - 1])
    }
}

/// The mixed-radix number whose first `m` digits are `t[0..m]`.
pub open spec fn fold_digits(t: Seq<usize>, cards: Seq<usize>, m: int) -> int
    decreases m,
{
    if m <= 0 {
        0
    } else {
        fold_digits(t, cards, m - 1) + t[m - 1] * place_value(cards, m - 1)
    }
}

/// The first `m` digits of `t` are below their radices.
pub open spec fn digits_fit(t: Seq<usize>, cards: Seq<usize>, m: int) -> bool {
    forall|j: int| 0 <= j < m ==> (#[trigger] t[j] as int) < radix_of(cards[j])
}

proof fn lemma_place_value_positive(cards: Seq<usize>, m: int)
    ensures
        place_value(cards, m) >= 1,
    decreases m,
{
    if m > 0 {
        lemma_place_value_positive(cards, m - 1);
        let a = place_value(cards, m - 1);
        let c = radix_of(cards[m - 1]);
        assert(a * c >= 1) by (nonlinear_arith)
            requires
                a >= 1,
                c >= 1,
        ;
    }
}

/// Place values grow with the digit position.
proof fn lemma_place_value_monotone(cards: Seq<usize>, m1: int, m2: int)
    requires
        m1 <= m2,
    ensures
        place_value(cards, m1) <= place_value(cards, m2),
    decreases m2 - m1,
{
    if m1 < m2 {
        lemma_place_value_monotone(cards, m1, m2 - 1);
        lemma_place_value_positive(cards, m2 - 1);
        let a = place_value(cards, m2 - 1);
        let c = radix_of(cards[m2 - 1]);
        if m2 - 1 >= 0 {
            assert(a <= a * c) by (nonlinear_arith)
                requires
                    a >= 1,
                    c >= 1,
            ;
        }
    }
}

/// A number of `m` fitting digits lies below the place value of digit `m`.
proof fn lemma_fold_bound(t: Seq<usize>, cards: Seq<usize>, m: int)
    requires
        0 <= m,
        digits_fit(t, cards, m),
    ensures
        0 <= fold_digits(t, cards, m) < place_value(cards, m),
    decreases m,
{
    if m > 0 {
        lemma_fold_bound(t, cards, m - 1);
        let f = fold_digits(t, cards, m - 1);
        let r = place_value(cards, m - 1) as int;
        let d = t[m - 1] as int;
        let c = radix_of(cards[m - 1]) as int;
        assert(0 <= f + d * r < r * c) by (nonlinear_arith)
            requires
                0 <= f < r,
                0 <= d < c,
        ;
    }
}

/// Two numbers of `m` fitting digits are equal only when their digits are.
proof fn lemma_fold_injective(t1: Seq<usize>, t2: Seq<usize>, cards: Seq<usize>, m: int)
    requires
        0 <= m,
        digits_fit(t1, cards, m),
        digits_fit(t2, cards, m),
        fold_digits(t1, cards, m) == fold_digits(t2, cards, m),
    ensures
        forall|j: int| 0 <= j < m ==> t1[j] == t2[j],
    decreases m,
{
    if m > 0 {
        lemma_fold_bound(t1, cards, m - 1);
        lemma_fold_bound(t2, cards, m - 1);
        let a1 = fold_digits(t1, cards, m - 1);
        let a2 = fold_digits(t2, cards, m - 1);
        let b1 = t1[m - 1] as int;
        let b2 = t2[m - 1] as int;
        let r = place_value(cards, m - 1) as int;
        assert(b1 == b2 && a1 == a2) by (nonlinear_arith)
            requires
                0 <= a1 < r,
                0 <= a2 < r,
                a1 + b1 * r == a2 + b2 * r,
        ;
        lemma_fold_injective(t1, t2, cards, m - 1);
    }
}

/// Mixed-radix strides over the `Z` cardinalities (`radix_of`, so that an
/// empty column counts as 1), and their product `∏ k_zi`; `None` if the
/// product overflows `usize`.
pub fn fold_strides(z_columns: &[(&[usize], usize)]) -> (res: Option<(Vec<usize>, usize)>)
    ensures
        match res {
            Some((strides, total)) => {
                &&& total == place_value(z_cards(z_columns@), z_columns@.len() as int)
                &&& strides@.len() == z_columns@.len()
                &&& forall|j: int| 0 <= j < z_columns@.len() ==> #[trigger] strides@[j] == place_value(z_cards(z_columns@), j)
            },
            None => place_value(z_cards(z_columns@), z_columns@.len() as int) > usize::MAX,
        },
{
    let ghost cards = z_cards(z_columns@);
    let mut strides: Vec<usize> = Vec::with_capacity(z_columns.len());
    let mut acc: usize = 1;
    let mut j: usize = 0;
    while j < z_columns.len()
        invariant
            j <= z_columns@.len(),
            cards == z_cards(z_columns@),
            acc == place_value(cards, j as int),
            strides@.len() == j,
            forall|i: int| 0 <= i < j ==> #[trigger] strides@[i] == place_value(cards, i),
        decreases z_columns.len() - j,
    {
        strides.push(acc);
        let card = z_columns[j].1;
        let radix = if card == 0 { 1 } else { card };
        match acc.checked_mul(radix) {
            Some(next) => {
                acc = next;
            },
            None => {
                proof {
                    lemma_place_value_monotone(cards, j as int + 1, z_columns@.len() as int);
                }
                return None;
            },
        }
        j += 1;
    }
    Some((strides, acc))
}

/// The folded stratum key of row `r`: its `Z` codes read as a mixed-radix
/// number.
fn fold_row(z_columns: &[(&[usize], usize)], strides: &Vec<usize>, total: usize, n: usize, r: usize) -> (res: usize)
    requires
        z_columns_fit(z_columns@, n as nat),
        r < n,
        total == place_value(z_cards(z_columns@), z_columns@.len() as int),
        strides@.len() == z_columns@.len(),
        forall|j: int| 0 <= j < z_columns@.len() ==> #[trigger] strides@[j] == place_value(z_cards(z_columns@), j),
    ensures
        res == fold_digits(row_tuple(z_columns@, r as int), z_cards(z_columns@), z_columns@.len() as int),
        res < total,
{
    let ghost cards = z_cards(z_columns@);
    let ghost t = row_tuple(z_columns@, r as int);
    proof {
        assert(digits_fit(t, cards, z_columns@.len() as int));
    }
    let mut acc: usize = 0;
    let mut j: usize = 0;
    while j < z_columns.len()
        invariant
            j <= z_columns@.len(),
            r < n,
            z_columns_fit(z_columns@, n as nat),
            cards == z_cards(z_columns@),
            t == row_tuple(z_columns@, r as int),
            digits_fit(t, cards, z_columns@.len() as int),
            total == place_value(cards, z_columns@.len() as int),
            strides@.len() == z_columns@.len(),
            forall|i: int| 0 <= i < z_columns@.len() ==> #[trigger] strides@[i] == place_value(cards, i),
            acc == fold_digits(t, cards, j as int),
        decreases z_columns.len() - j,
    {
        proof {
            lemma_fold_bound(t, cards, j as int + 1);
            lemma_place_value_monotone(cards, j as int + 1, z_columns@.len() as int);
            assert(t[j as int] == z_columns@[j as int].0@[r as int]);
            let d = t[j as int] as int;
            let p = place_value(cards, j as int) as int;
            assert(d * p <= fold_digits(t, cards, j as int + 1)) by {
                lemma_fold_bound(t, cards, j as int);
            }
        }
        let codes: &[usize] = z_columns[j].0;
        acc = acc + codes[r] * strides[j];
        j += 1;
    }
    proof {
        lemma_fold_bound(t, cards, z_columns@.len() as int);
    }
    acc
}

/// Number rows by first-seen folded key using a flat remap array over the
/// folded space `0..total`.
fn densify_dense(folded: &Vec<usize>, total: usize) -> (res: (Vec<u32>, usize))
    requires
        folded@.len() < u32::MAX,
        forall|r: int| 0 <= r < folded@.len() ==> #[trigger] folded@[r] < total,
    ensures
        is_first_seen_ids(folded@, res.0@, res.1 as nat),
        res.1 <= folded@.len(),
{
    let mut remap: Vec<u32> = vec![u32::MAX; total];
    let mut ids: Vec<u32> = Vec::with_capacity(folded.len());
    let mut next: u32 = 0;
    let ghost mut d: Seq<usize> = Seq::empty();
    let mut r: usize = 0;
    while r < folded.len()
        invariant
            r <= folded@.len(),
            folded@.len() < u32::MAX,
            remap@.len() == total,
            forall|q: int| 0 <= q < folded@.len() ==> #[trigger] folded@[q] < total,
            d == first_seen(folded@.take(r as int)),
            next == d.len(),
            d.len() <= r,
            d.no_duplicates(),
            ids@.len() == r,
            forall|v: int| 0 <= v < total ==> (#[trigger] remap@[v] != u32::MAX <==> d.contains(v as usize)),
            forall|v: int| 0 <= v < total && #[trigger] remap@[v] != u32::MAX ==> (remap@[v] as int) < d.len() && d[remap@[v] as int] == v,
            forall|q: int| 0 <= q < r ==> (#[trigger] ids@[q] as int) < d.len() && d[ids@[q] as int] == folded@[q],
        decreases folded.len() - r,
    {
        proof {
            lemma_first_seen_take(folded@, r as int);
            lemma_first_seen(folded@.take(r as int + 1));
        }
        let f = folded[r];
        if remap[f] == u32::MAX {
            let ghost nd = d.push(f);
            remap.set(f, next);
            proof {
                assert(nd[d.len() as int] == f);
                assert forall|v: int| 0 <= v < total implies (#[trigger] remap@[v] != u32::MAX <==> nd.contains(v as usize)) by {
                    if v != f {
                        if d.contains(v as usize) {
                            let j = choose|j: int| 0 <= j < d.len() && d[j] == v as usize;
                            assert(nd[j] == v as usize);
                        }
                        if nd.contains(v as usize) {
                            let j = choose|j: int| 0 <= j < nd.len() && nd[j] == v as usize;
                            assert(d[j] == v as usize);
                        }
                    }
                }
                assert forall|v: int| 0 <= v < total && #[trigger] remap@[v] != u32::MAX implies (remap@[v] as int) < nd.len() && nd[remap@[v] as int] == v by {
                    if v != f {
                        assert(nd[remap@[v] as int] == d[remap@[v] as int]);
                    }
                }
                d = nd;
            }
            next = next + 1;
        }
        ids.push(remap[f]);
        r += 1;
    }
    proof {
        assert(folded@.take(folded@.len() as int) =~= folded@);
    }
    (ids, next as usize)
}

/// Number rows by first-seen folded key using a hash map from folded key to
/// id.
pub fn densify_hashed(folded: &Vec<usize>) -> (res: (Vec<u32>, usize))
    requires
        folded@.len() < u32::MAX,
    ensures
        is_first_seen_ids(folded@, res.0@, res.1 as nat),
        res.1 <= folded@.len(),
{
    let mut remap: HashMap<usize, u32> = HashMap::new();
    let mut ids: Vec<u32> = Vec::with_capacity(folded.len());
    let mut next: u32 = 0;
    let ghost mut d: Seq<usize> = Seq::empty();
    let mut r: usize = 0;
    while r < folded.len()
        invariant
            r <= folded@.len(),
            folded@.len() < u32::MAX,
            d == first_seen(folded@.take(r as int)),
            next == d.len(),
            d.len() <= r,
            d.no_duplicates(),
            ids@.len() == r,
            forall|k: usize| remap@.contains_key(k) <==> d.contains(k),
            forall|k: usize| #[trigger] remap@.contains_key(k) ==> (remap@[k] as int) < d.len() && d[remap@[k] as int] == k,
            forall|q: int| 0 <= q < r ==> (#[trigger] ids@[q] as int) < d.len() && d[ids@[q] as int] == folded@[q],
        decreases folded.len() - r,
    {
        proof {
            lemma_first_seen_take(folded@, r as int);
            lemma_first_seen(folded@.take(r as int + 1));
        }
        let f = folded[r];
        let id: u32;
        match remap.get(&f) {
            Some(c) => {
                id = *c;
            },
            None => {
                id = next;
                remap.insert(f, next);
                proof {
                    let nd = d.push(f);
                    assert(nd[d.len() as int] == f);
                    assert forall|k: usize| #[trigger] remap@.contains_key(k) implies (remap@[k] as int) < nd.len() && nd[remap@[k] as int] == k by {
                        if k != f {
                            assert(nd[remap@[k] as int] == d[remap@[k] as int]);
                        }
                    }
                    assert forall|k: usize| remap@.contains_key(k) <==> nd.contains(k) by {
                        if nd.contains(k) && k != f {
                            let j = choose|j: int| 0 <= j < nd.len() && nd[j] == k;
                            assert(d[j] == k);
                        }
                        if d.contains(k) {
                            let j = choose|j: int| 0 <= j < d.len() && d[j] == k;
                            assert(nd[j] == k);
                        }
                    }
                    d = nd;
                }
                next = next + 1;
            },
        }
        ids.push(id);
        r += 1;
    }
    proof {
        assert(folded@.take(folded@.len() as int) =~= folded@);
    }
    (ids, next as usize)
}

/// Whether rows `a` and `b` have the same conditioning tuple.
fn same_tuple(z_columns: &[(&[usize], usize)], n: usize, a: usize, b: usize) -> (res: bool)
    requires
        z_columns_fit(z_columns@, n as nat),
        a < n,
        b < n,
    ensures
        res == (row_tuple(z_columns@, a as int) == row_tuple(z_columns@, b as int)),
{
    let mut j: usize = 0;
    while j < z_columns.len()
        invariant
            j <= z_columns@.len(),
            a < n && b < n,
            z_columns_fit(z_columns@, n as nat),
            forall|i: int| 0 <= i < j ==> z_columns@[i].0@[a as int] == z_columns@[i].0@[b as int],
        decreases z_columns.len() - j,
    {
        let codes: &[usize] = z_columns[j].0;
        if codes[a] != codes[b] {
            proof {
                assert(row_tuple(z_columns@, a as int)[j as int] != row_tuple(z_columns@, b as int)[j as int]);
            }
            return false;
        }
        j += 1;
    }
    proof {
        assert(row_tuple(z_columns@, a as int) =~= row_tuple(z_columns@, b as int));
    }
    true
}

/// The first representative row whose tuple equals row `r`'s, if any.
fn find_rep(z_columns: &[(&[usize], usize)], n: usize, reps: &Vec<usize>, r: usize) -> (res: Option<usize>)
    requires
        z_columns_fit(z_columns@, n as nat),
        r < n,
        forall|t: int| 0 <= t < reps@.len() ==> (#[trigger] reps@[t] as int) < n,
    ensures
        match res {
            Some(s) => s < reps@.len() && row_tuple(z_columns@, reps@[s as int] as int) == row_tuple(z_columns@, r as int),
            None => forall|t: int| 0 <= t < reps@.len() ==> row_tuple(z_columns@, #[trigger] reps@[t] as int) != row_tuple(z_columns@, r as int),
        },
{
    let mut s: usize = 0;
    while s < reps.len()
        invariant
            s <= reps@.len(),
            r < n,
            z_columns_fit(z_columns@, n as nat),
            forall|t: int| 0 <= t < reps@.len() ==> (#[trigger] reps@[t] as int) < n,
            forall|t: int| 0 <= t < s ==> row_tuple(z_columns@, #[trigger] reps@[t] as int) != row_tuple(z_columns@, r as int),
        decreases reps.len() - s,
    {
        if same_tuple(z_columns, n, reps[s], r) {
            return Some(s);
        }
        s += 1;
    }
    None
}

/// Number rows by first-seen conditioning tuple, comparing tuples directly
/// (used when the folded key space overflows `usize`).
fn densify_tuples(z_columns: &[(&[usize], usize)], n: usize) -> (res: (Vec<u32>, usize))
    requires
        n < u32::MAX,
        z_columns_fit(z_columns@, n as nat),
    ensures
        is_first_seen_ids(row_tuples(z_columns@, n as nat), res.0@, res.1 as nat),
        res.1 <= n,
{
    let ghost keys = row_tuples(z_columns@, n as nat);
    let mut reps: Vec<usize> = Vec::new();
    let mut ids: Vec<u32> = Vec::with_capacity(n);
    let ghost mut d: Seq<Seq<usize>> = Seq::empty();
    let mut r: usize = 0;
    while r < n
        invariant
            r <= n,
            n < u32::MAX,
            z_columns_fit(z_columns@, n as nat),
            keys == row_tuples(z_columns@, n as nat),
            d == first_seen(keys.take(r as int)),
            d.no_duplicates(),
            reps@.len() == d.len(),
            d.len() <= r,
            forall|s: int| 0 <= s < reps@.len() ==> (#[trigger] reps@[s] as int) < r && keys[reps@[s] as int] == d[s],
            ids@.len() == r,
            forall|q: int| 0 <= q < r ==> (#[trigger] ids@[q] as int) < d.len() && d[ids@[q] as int] == keys[q],
        decreases n - r,
    {
        proof {
            lemma_first_seen_take(keys, r as int);
            lemma_first_seen(keys.take(r as int + 1));
        }
        proof {
            assert forall|t: int| 0 <= t < reps@.len() implies (#[trigger] reps@[t] as int) < n by {}
        }
        let found = find_rep(z_columns, n, &reps, r);
        if let Some(s) = found {
            proof {
                assert(keys[reps@[s as int] as int] == keys[r as int]);
                assert(d[s as int] == keys[r as int]);
                assert(d.contains(keys[r as int]));
                assert(keys.take(r as int + 1)[r as int] == keys[r as int]);
            }
            ids.push(s as u32);
        } else {
            proof {
                assert(!d.contains(keys[r as int])) by {
                    if d.contains(keys[r as int]) {
                        let t = choose|t: int| 0 <= t < d.len() && d[t] == keys[r as int];
                        assert(keys[reps@[t] as int] == d[t]);
                    }
                }
                assert(keys.take(r as int + 1)[r as int] == keys[r as int]);
            }
            let id = reps.len() as u32;
            reps.push(r);
            ids.push(id);
            proof {
                let nd = d.push(keys[r as int]);
                assert forall|q: int| 0 <= q < r + 1 implies (#[trigger] ids@[q] as int) < nd.len() && nd[ids@[q] as int] == keys[q] by {
                    if q < r {
                        assert(nd[ids@[q] as int] == d[ids@[q] as int]);
                    }
                }
                d = nd;
            }
        }
        r += 1;
    }
    proof {
        assert(keys.take(n as int) =~= keys);
    }
    (ids, reps.len())
}

/// Block starts never pass the last start.
proof fn lemma_starts_reach_end(starts: Seq<u32>, k: int, s: int)
    requires
        0 <= s <= k,
        starts.len() == k + 1,
        forall|t: int| 0 <= t < k ==> #[trigger] starts[t] <= starts[t + 1],
    ensures
        starts[s] <= starts[k],
    decreases k - s,
{
    if s < k {
        lemma_starts_reach_end(starts, k, s + 1);
        assert(starts[s] <= starts[s + 1]);
    }
}

/// Rank of row `r`: the position of its key among the distinct keys in
/// first-seen order.
pub open spec fn key_rank<K>(keys: Seq<K>, r: u32) -> int {
    first_seen(keys).index_of(keys[r as int])
}

/// Rows ordered by the rank of their key, then by row index.
pub open spec fn rank_then_row<K>(keys: Seq<K>) -> spec_fn(u32, u32) -> bool {
    |a: u32, b: u32| key_rank(keys, a) < key_rank(keys, b) || (key_rank(keys, a) == key_rank(keys, b) && a <= b)
}

proof fn lemma_rank_then_row_total<K>(keys: Seq<K>)
    ensures
        total_ordering(rank_then_row(keys)),
{
}

/// The block containing position `p` of `rows`, searching below block `hi`.
proof fn lemma_block_of<K>(starts: Seq<u32>, rows: Seq<u32>, keys: Seq<K>, p: int, hi: int) -> (s: int)
    requires
        groups_by_key(starts, rows, keys),
        0 < hi <= first_seen(keys).len(),
        0 <= p < starts[hi],
    ensures
        0 <= s < hi,
        starts[s] <= p < starts[s + 1],
    decreases hi,
{
    if starts[hi - 1] <= p {
        hi - 1
    } else {
        lemma_block_of(starts, rows, keys, p, hi - 1)
    }
}

/// A row in block `s` has rank `s`.
proof fn lemma_rank_in_block<K>(starts: Seq<u32>, rows: Seq<u32>, keys: Seq<K>, s: int, p: int)
    requires
        groups_by_key(starts, rows, keys),
        0 <= s < first_seen(keys).len(),
        starts[s] <= p < starts[s + 1],
    ensures
        key_rank(keys, rows[p]) == s,
{
    let d = first_seen(keys);
    lemma_first_seen(keys);
    assert(keys[rows[p] as int] == d[s]);
    assert(d.contains(d[s]));
    let i = d.index_of(d[s]);
    assert(d[i] == d[s]);
}

/// Every row `0..n` occurs exactly once in `rows`.
pub proof fn lemma_rows_permute<K>(starts: Seq<u32>, rows: Seq<u32>, keys: Seq<K>)
    requires
        groups_by_key(starts, rows, keys),
    ensures
        forall|x: u32| #[trigger] rows.to_multiset().count(x) == if (x as int) < keys.len() { 1nat } else { 0nat },
{
    broadcast use vstd::seq_lib::group_to_multiset_ensures;

    let n = keys.len() as int;
    let as_int = |x: u32| x as int;
    let ri = rows.map_values(as_int);
    assert(rows.no_duplicates());
    assert(ri.no_duplicates()) by {
        assert forall|i: int, j: int| 0 <= i < ri.len() && 0 <= j < ri.len() && i != j implies ri[i] != ri[j] by {
            assert(rows[i] != rows[j]);
        }
    }
    ri.unique_seq_to_set();
    lemma_int_range(0, n);
    assert(ri.to_set().subset_of(set_int_range(0, n))) by {
        assert forall|x: int| ri.to_set().contains(x) implies set_int_range(0, n).contains(x) by {
            let i = choose|i: int| 0 <= i < ri.len() && ri[i] == x;
            assert(rows[i] < n);
        }
    }
    lemma_subset_equality(ri.to_set(), set_int_range(0, n));
    rows.lemma_multiset_has_no_duplicates();
    assert forall|x: u32| #[trigger] rows.to_multiset().count(x) == if (x as int) < n { 1nat } else { 0nat } by {
        if (x as int) < n {
            assert(set_int_range(0, n).contains(x as int));
            assert(ri.to_set().contains(x as int));
            let i = choose|i: int| 0 <= i < ri.len() && ri[i] == x as int;
            assert(rows[i] == x);
            assert(rows.contains(x));
        } else {
            if rows.contains(x) {
                let i = choose|i: int| 0 <= i < rows.len() && rows[i] == x;
            }
        }
    }
}

/// The rows of a grouping are sorted by key rank, then row index.
proof fn lemma_rows_sorted<K>(starts: Seq<u32>, rows: Seq<u32>, keys: Seq<K>)
    requires
        groups_by_key(starts, rows, keys),
    ensures
        sorted_by(rows, rank_then_row(keys)),
{
    let k = first_seen(keys).len() as int;
    let n = keys.len() as int;
    assert forall|i: int, j: int| 0 <= i < j < rows.len() implies #[trigger] rank_then_row(keys)(rows[i], rows[j]) by {
        let si = lemma_block_of(starts, rows, keys, i, k);
        let sj = lemma_block_of(starts, rows, keys, j, k);
        lemma_rank_in_block(starts, rows, keys, si, i);
        lemma_rank_in_block(starts, rows, keys, sj, j);
        if sj < si {
            lemma_starts_reach_end(starts.take(si + 1), si, sj + 1);
            assert(starts.take(si + 1)[sj + 1] == starts[sj + 1]);
            assert(starts.take(si + 1)[si] == starts[si]);
        } else if si == sj {
            assert(rows[i] < rows[j]);
        }
    }
}

/// The first position of a block is the number of rows whose key ranks
/// below it.
proof fn lemma_start_is_rank_boundary<K>(starts: Seq<u32>, rows: Seq<u32>, keys: Seq<K>, s: int, p: int)
    requires
        groups_by_key(starts, rows, keys),
        0 <= s <= first_seen(keys).len(),
        0 <= p < keys.len(),
    ensures
        p < starts[s] <==> key_rank(keys, rows[p]) < s,
{
    let k = first_seen(keys).len() as int;
    let b = lemma_block_of(starts, rows, keys, p, k);
    lemma_rank_in_block(starts, rows, keys, b, p);
    if b < s {
        lemma_starts_reach_end(starts.take(s + 1), s, b + 1);
        assert(starts.take(s + 1)[b + 1] == starts[b + 1]);
        assert(starts.take(s + 1)[s] == starts[s]);
    } else {
        lemma_starts_reach_end(starts.take(b + 1), b, s);
        assert(starts.take(b + 1)[s] == starts[s]);
        assert(starts.take(b + 1)[b] == starts[b]);
    }
}

/// Two groupings of the same keys list the rows in the same order.
proof fn lemma_rows_unique<K>(sa: Seq<u32>, ra: Seq<u32>, sb: Seq<u32>, rb: Seq<u32>, keys: Seq<K>)
    requires
        groups_by_key(sa, ra, keys),
        groups_by_key(sb, rb, keys),
    ensures
        ra == rb,
{
    let n = keys.len() as int;
    lemma_rows_permute(sa, ra, keys);
    lemma_rows_permute(sb, rb, keys);
    assert(ra.to_multiset() =~= rb.to_multiset()) by {
        assert forall|x: u32| ra.to_multiset().count(x) == rb.to_multiset().count(x) by {
            assert(ra.to_multiset().count(x) == if (x as int) < n { 1nat } else { 0nat });
            assert(rb.to_multiset().count(x) == if (x as int) < n { 1nat } else { 0nat });
        }
    }
    lemma_rows_sorted(sa, ra, keys);
    lemma_rows_sorted(sb, rb, keys);
    lemma_rank_then_row_total(keys);
    vstd::seq_lib::lemma_sorted_unique(ra, rb, rank_then_row(keys));
}

/// Block `s` starts at the same position in two groupings of the same keys
/// with the same row order.
proof fn lemma_start_unique_at<K>(sa: Seq<u32>, sb: Seq<u32>, rows: Seq<u32>, keys: Seq<K>, s: int)
    requires
        groups_by_key(sa, rows, keys),
        groups_by_key(sb, rows, keys),
        0 <= s <= first_seen(keys).len(),
    ensures
        sa[s] == sb[s],
{
    let k = first_seen(keys).len() as int;
    lemma_starts_reach_end(sa, k, s);
    lemma_starts_reach_end(sb, k, s);
    if sa[s] < sb[s] {
        let p = sa[s] as int;
        lemma_start_is_rank_boundary(sa, rows, keys, s, p);
        lemma_start_is_rank_boundary(sb, rows, keys, s, p);
    } else if sb[s] < sa[s] {
        let p = sb[s] as int;
        lemma_start_is_rank_boundary(sa, rows, keys, s, p);
        lemma_start_is_rank_boundary(sb, rows, keys, s, p);
    }
}

/// Two groupings of the same keys with the same row order start their
/// blocks at the same positions.
proof fn lemma_starts_unique<K>(sa: Seq<u32>, sb: Seq<u32>, rows: Seq<u32>, keys: Seq<K>)
    requires
        groups_by_key(sa, rows, keys),
        groups_by_key(sb, rows, keys),
    ensures
        sa == sb,
{
    let k = first_seen(keys).len() as int;
    assert forall|s: int| 0 <= s <= k implies sa[s] == sb[s] by {
        lemma_start_unique_at(sa, sb, rows, keys, s);
    }
    assert(sa =~= sb);
}

/// A grouping of rows by key is unique: any two partitions that group the
/// same keys hold the same block starts and the same row order.
pub proof fn lemma_groups_unique<K>(a: &StrataPartition, b: &StrataPartition, keys: Seq<K>)
    requires
        a.groups(keys),
        b.groups(keys),
    ensures
        a.starts@ == b.starts@,
        a.rows@ == b.rows@,
{
    lemma_rows_unique(a.starts@, a.rows@, b.starts@, b.rows@, keys);
    lemma_starts_unique(a.starts@, b.starts@, a.rows@, keys);
}

/// Every block start of a grouping lies within the rows.
pub proof fn lemma_starts_bounded<K>(starts: Seq<u32>, rows: Seq<u32>, keys: Seq<K>, s: int)
    requires
        groups_by_key(starts, rows, keys),
        0 <= s <= first_seen(keys).len(),
    ensures
        starts[s] <= rows.len(),
{
    lemma_starts_reach_end(starts, first_seen(keys).len() as int, s);
}

/// Row `r` is listed in block `s` of a grouping.
pub open spec fn in_block(starts: Seq<u32>, rows: Seq<u32>, s: int, r: int) -> bool {
    exists|q: int| starts[s] <= q < starts[s + 1] && rows[q] as int == r
}

/// The blocks of a grouping hold exactly the rows of their key: row `r` is
/// in block `s` if and only if its key is the `s`-th distinct key.
pub proof fn lemma_groups_contents<K>(starts: Seq<u32>, rows: Seq<u32>, keys: Seq<K>)
    requires
        groups_by_key(starts, rows, keys),
    ensures
        forall|s: int, r: int|
            0 <= s < first_seen(keys).len() && 0 <= r < keys.len() ==> (#[trigger] in_block(starts, rows, s, r)
                <==> keys[r] == first_seen(keys)[s]),
{
    broadcast use vstd::seq_lib::group_to_multiset_ensures;

    let d = first_seen(keys);
    let k = d.len() as int;
    let n = keys.len() as int;
    lemma_first_seen(keys);
    lemma_rows_permute(starts, rows, keys);
    assert forall|s: int, r: int|
        0 <= s < k && 0 <= r < n implies (#[trigger] in_block(starts, rows, s, r) <==> keys[r] == d[s]) by {
        if in_block(starts, rows, s, r) {
            let q = choose|q: int| starts[s] <= q < starts[s + 1] && rows[q] as int == r;
            assert(keys[rows[q] as int] == d[s]);
        }
        if keys[r] == d[s] {
            let x = r as u32;
            assert(rows.to_multiset().count(x) == 1);
            assert(rows.contains(x));
            let p = choose|p: int| 0 <= p < rows.len() && rows[p] == x;
            lemma_starts_reach_end(starts, k, 0);
            let b = lemma_block_of(starts, rows, keys, p, k);
            assert(keys[rows[p] as int] == d[b]);
            assert(d[b] == d[s]);
            assert(b == s);
            assert(in_block(starts, rows, s, r));
        }
    }
}

/// Rows grouped by key from first-seen ids of the keys are grouped by key.
#[verifier::rlimit(30)]
proof fn lemma_groups_by_key<K>(starts: Seq<u32>, rows: Seq<u32>, keys: Seq<K>, ids: Seq<u32>, k: nat)
    requires
        groups_by_id(starts, rows, ids, k),
        is_first_seen_ids(keys, ids, k),
    ensures
        groups_by_key(starts, rows, keys),
{
    let d = first_seen(keys);
    assert(d.len() == k);
    assert(starts.len() == k + 1);
    assert(rows.len() == keys.len());
    assert forall|s: int, p: int|
        #![trigger starts[s], rows[p]]
        0 <= s < k && starts[s] <= p < starts[s + 1] implies keys[rows[p] as int] == d[s] by {
        assert(0 <= s < k && starts[s] <= p < starts[s + 1]);
        assert(ids[rows[p] as int] == s);
        lemma_starts_reach_end(starts, k as int, s + 1);
        assert(p < keys.len());
        assert((rows[p] as int) < keys.len());
    }
}

/// Group rows `0..n` by the combination of the `Z` columns' codes.
///
/// Strata are identified by a mixed-radix fold of the codes (no per-row
/// allocation) and numbered in first-seen order; if `∏ k_zi` overflows
/// `usize`, tuples are compared directly. Rows are then grouped with a stable
/// counting sort. Row indices are stored as `u32`, so there must be fewer
/// than `u32::MAX` rows.
pub fn build_strata_partition(z_columns: &[(&[usize], usize)], n: usize) -> (res: StrataPartition)
    requires
        n < u32::MAX,
        z_columns_fit(z_columns@, n as nat),
    ensures
        res.groups(row_tuples(z_columns@, n as nat)),
{
    let ghost keys = row_tuples(z_columns@, n as nat);
    let ghost cards = z_cards(z_columns@);
    let ghost m = z_columns@.len() as int;
    let (dense_ids, n_strata) = match fold_strides(z_columns) {
        Some((strides, total)) => {
            let mut folded: Vec<usize> = Vec::with_capacity(n);
            let mut r: usize = 0;
            while r < n
                invariant
                    r <= n,
                    z_columns_fit(z_columns@, n as nat),
                    keys == row_tuples(z_columns@, n as nat),
                    cards == z_cards(z_columns@),
                    m == z_columns@.len(),
                    total == place_value(cards, m),
                    strides@.len() == z_columns@.len(),
                    forall|j: int| 0 <= j < z_columns@.len() ==> #[trigger] strides@[j] == place_value(cards, j),
                    folded@.len() == r,
                    forall|q: int| 0 <= q < r ==> #[trigger] folded@[q] == fold_digits(keys[q], cards, m) && folded@[q] < total,
                decreases n - r,
            {
                let f = fold_row(z_columns, &strides, total, n, r);
                proof {
                    assert(keys[r as int] == row_tuple(z_columns@, r as int));
                }
                folded.push(f);
                r += 1;
            }
            let ghost g = |t: Seq<usize>| fold_digits(t, cards, m) as usize;
            proof {
                assert(folded@ =~= keys.map_values(g));
                assert forall|i: int, j: int| 0 <= i < keys.len() && 0 <= j < keys.len() && g(keys[i]) == g(keys[j]) implies keys[i] == keys[j] by {
                    assert(digits_fit(keys[i], cards, m));
                    assert(digits_fit(keys[j], cards, m));
                    lemma_fold_bound(keys[i], cards, m);
                    lemma_fold_bound(keys[j], cards, m);
                    lemma_fold_injective(keys[i], keys[j], cards, m);
                    assert(keys[i] =~= keys[j]);
                }
            }
            let (ids, k) = if (total as u64) <= 4 * (n as u64) + DENSE_REMAP_SLACK as u64 {
                densify_dense(&folded, total)
            } else {
                densify_hashed(&folded)
            };
            proof {
                lemma_ids_of_mapped_keys(keys, g, ids@, k as nat);
            }
            (ids, k)
        },
        None => densify_tuples(z_columns, n),
    };
    let (starts, rows) = group_by_id(&dense_ids, n_strata);
    proof {
        lemma_groups_by_key(starts@, rows@, keys, dense_ids@, n_strata as nat);
    }
    StrataPartition { starts, rows }
}

} // verus!
