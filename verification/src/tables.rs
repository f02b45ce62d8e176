//! Contingency tables and row groupings over raw column values.
//!
//! Values are IEEE-754 doubles handed over by their bit patterns. Two values
//! are the same category when they are equal as numbers, with every NaN
//! equal to every other NaN; categories are ordered by value, NaN last.

use std::collections::HashMap;

use vstd::prelude::*;
use vstd::relations::{sorted_by, total_ordering};
use vstd::set_lib::{lemma_int_range, lemma_subset_equality, set_int_range};

use crate::coding::{
    first_seen, first_seen_codes, is_first_seen_coding, lemma_first_seen, lemma_first_seen_map,
    lemma_same_elements_same_multiset,
};
use crate::dataset::{bits_are_nan, EXPONENT_BITS, MANTISSA_BITS, NEG_ZERO_BITS};
use crate::discrete::{all_rows, lemma_pair_count_order_free, lemma_pair_count_reindex, pair_count, pair_table, ContingencyTable};
use crate::strata::{build_strata_partition, in_block, lemma_groups_contents, row_tuples, z_columns_fit, StrataPartition};

verus! {

broadcast use vstd::std_specs::hash::group_hash_axioms;

/// The sign bit of an IEEE-754 double.
pub const SIGN_BIT: u64 = 0x8000_0000_0000_0000;

/// The category key of the double with bit pattern `b`: `-0.0` and `0.0`
/// share a key, every NaN has the greatest key, and otherwise keys order
/// doubles by value (negative values map below positive ones, with their
/// bit order reversed).
pub open spec fn order_key(b: u64) -> u64 {
    if bits_are_nan(b) {
        u64::MAX
    } else if b == NEG_ZERO_BITS {
        SIGN_BIT
    } else if b & SIGN_BIT != 0 {
        !b
    } else {
        b | SIGN_BIT
    }
}

/// The category key of the double with bit pattern `b`.
pub fn order_key_of(b: u64) -> (res: u64)
    ensures
        res == order_key(b),
{
    if b & EXPONENT_BITS == EXPONENT_BITS && b & MANTISSA_BITS != 0 {
        u64::MAX
    } else if b == NEG_ZERO_BITS {
        SIGN_BIT
    } else if b & SIGN_BIT != 0 {
        !b
    } else {
        b | SIGN_BIT
    }
}

/// The category keys of a row of values.
pub open spec fn row_key(row: Seq<u64>) -> Seq<u64> {
    row.map_values(|b: u64| order_key(b))
}

/// The category keys of every row.
pub open spec fn row_keys(rows: Seq<Vec<u64>>) -> Seq<Seq<u64>> {
    Seq::new(rows.len(), |r: int| row_key(rows[r]@))
}

/// Every row has as many values as the first.
pub open spec fn rectangular(rows: Seq<Vec<u64>>) -> bool {
    forall|r: int| 0 <= r < rows.len() ==> (#[trigger] rows[r])@.len() == rows[0]@.len()
}

/// `groups` lists the rows `0..keys.len()` by key: one group per distinct
/// key, in first-seen order; group `g` holds, in increasing order, exactly
/// the rows whose key is the `g`-th distinct key.
pub open spec fn groups_rows_by_key<K>(groups: Seq<Vec<usize>>, keys: Seq<K>) -> bool {
    let d = first_seen(keys);
    &&& groups.len() == d.len()
    &&& forall|g: int, i: int, j: int|
        0 <= g < groups.len() && 0 <= i < j < groups[g]@.len() ==> #[trigger] groups[g]@[i] < #[trigger] groups[g]@[j]
    &&& forall|g: int, i: int|
        0 <= g < groups.len() && 0 <= i < groups[g]@.len() ==> (#[trigger] groups[g]@[i] as int) < keys.len()
            && keys[groups[g]@[i] as int] == d[g]
    &&& forall|g: int, r: int|
        0 <= g < groups.len() && 0 <= r < keys.len() && keys[r] == d[g] ==> #[trigger] groups[g]@.contains(r as usize)
}

/// Column `j` of the category keys of `rows`.
pub open spec fn column_keys(rows: Seq<Vec<u64>>, j: int) -> Seq<u64> {
    Seq::new(rows.len(), |r: int| order_key(rows[r]@[j]))
}

/// The code tuple of a key tuple: each key's position among the distinct
/// keys of its column.
pub open spec fn code_tuple(rows: Seq<Vec<u64>>, m: nat, t: Seq<u64>) -> Seq<usize> {
    Seq::new(m, |j: int| first_seen(column_keys(rows, j)).index_of(t[j]) as usize)
}

/// The conditioning columns made of per-column codes are the code tuples of
/// the rows' key tuples, and the code tuple of a key tuple identifies it.
proof fn lemma_code_tuples(rows: Seq<Vec<u64>>, m: nat, z: Seq<(&[usize], usize)>)
    requires
        rows.len() < u32::MAX,
        rows.len() > 0 ==> m == rows[0]@.len(),
        rows.len() == 0 ==> m == 0,
        rectangular(rows),
        z.len() == m,
        forall|j: int| 0 <= j < m ==> is_first_seen_coding(column_keys(rows, j), (#[trigger] z[j]).0@, z[j].1 as nat),
    ensures
        row_tuples(z, rows.len()) == row_keys(rows).map_values(|t: Seq<u64>| code_tuple(rows, m, t)),
        forall|a: int, b: int|
            0 <= a < rows.len() && 0 <= b < rows.len() && code_tuple(rows, m, row_keys(rows)[a]) == code_tuple(
                rows,
                m,
                row_keys(rows)[b],
            ) ==> row_keys(rows)[a] == row_keys(rows)[b],
{
    let n = rows.len();
    let keys = row_keys(rows);
    let ct = |t: Seq<u64>| code_tuple(rows, m, t);
    assert forall|j: int, r: int| 0 <= j < m && 0 <= r < n implies first_seen(column_keys(rows, j)).index_of(
        keys[r][j],
    ) == (#[trigger] z[j]).0@[r] && #[trigger] first_seen(column_keys(rows, j))[first_seen(column_keys(rows, j)).index_of(keys[r][j])] == keys[r][j] by {
        let ck = column_keys(rows, j);
        let d = first_seen(ck);
        lemma_first_seen(ck);
        assert(rows[r]@.len() == m);
        assert(keys[r][j] == ck[r]);
        let c = z[j].0@[r] as int;
        assert(d[c] == ck[r]);
        assert(d.contains(ck[r]));
        let i = d.index_of(ck[r]);
        assert(d[i] == ck[r]);
    }
    assert forall|r: int| 0 <= r < n implies #[trigger] row_tuples(z, n)[r] == keys.map_values(ct)[r] by {
        assert(keys[r].len() == m) by {
            assert(rows[r]@.len() == m);
        }
        assert forall|j: int| 0 <= j < m implies row_tuples(z, n)[r][j] == keys.map_values(ct)[r][j] by {
            assert(first_seen(column_keys(rows, j)).index_of(keys[r][j]) == z[j].0@[r]);
        }
        assert(row_tuples(z, n)[r] =~= keys.map_values(ct)[r]);
    }
    assert(row_tuples(z, n) =~= keys.map_values(ct));
    assert forall|a: int, b: int|
        0 <= a < n && 0 <= b < n && ct(keys[a]) == ct(keys[b]) implies keys[a] == keys[b] by {
        assert(rows[a]@.len() == m && rows[b]@.len() == m);
        assert forall|j: int| 0 <= j < m implies keys[a][j] == keys[b][j] by {
            let ck = column_keys(rows, j);
            let d = first_seen(ck);
            lemma_first_seen(ck);
            assert(ct(keys[a])[j] == ct(keys[b])[j]);
            assert(keys[a][j] == ck[a]);
            assert(keys[b][j] == ck[b]);
            assert(d.contains(ck[a]));
            assert(d.contains(ck[b]));
            assert(d[d.index_of(keys[a][j])] == keys[a][j]);
            assert(d[d.index_of(keys[b][j])] == keys[b][j]);
            assert(0 <= d.index_of(keys[a][j]) < d.len() <= n);
            assert(0 <= d.index_of(keys[b][j]) < d.len() <= n);
            assert(d.index_of(keys[a][j]) == d.index_of(keys[b][j]));
        }
        assert(keys[a] =~= keys[b]);
    }
}

/// A partition of the rows by their code tuples lists, in block `s`, exactly
/// the rows whose key tuple is the `s`-th distinct one.
proof fn lemma_blocks_by_row_key(rows: Seq<Vec<u64>>, m: nat, z: Seq<(&[usize], usize)>, p: StrataPartition)
    requires
        rows.len() < u32::MAX,
        rows.len() > 0 ==> m == rows[0]@.len(),
        rows.len() == 0 ==> m == 0,
        rectangular(rows),
        z.len() == m,
        forall|j: int| 0 <= j < m ==> is_first_seen_coding(column_keys(rows, j), (#[trigger] z[j]).0@, z[j].1 as nat),
        p.groups(row_tuples(z, rows.len())),
    ensures
        p.starts@.len() == first_seen(row_keys(rows)).len() + 1,
        forall|s: int, r: int|
            0 <= s < first_seen(row_keys(rows)).len() && 0 <= r < rows.len() ==> (#[trigger] in_block(
                p.starts@,
                p.rows@,
                s,
                r,
            ) <==> row_keys(rows)[r] == first_seen(row_keys(rows))[s]),
{
    let n = rows.len();
    let keys = row_keys(rows);
    let ct = |t: Seq<u64>| code_tuple(rows, m, t);
    lemma_code_tuples(rows, m, z);
    let tuples = row_tuples(z, n);
    lemma_first_seen_map(keys, ct);
    let d = first_seen(keys);
    lemma_first_seen(keys);
    assert(first_seen(tuples) == d.map_values(ct));
    lemma_groups_contents(p.starts@, p.rows@, tuples);
    assert forall|s: int, r: int| 0 <= s < d.len() && 0 <= r < n implies (#[trigger] in_block(p.starts@, p.rows@, s, r)
        <==> keys[r] == d[s]) by {
        assert(keys.contains(d[s]));
        let i = choose|i: int| 0 <= i < keys.len() && keys[i] == d[s];
        assert(first_seen(tuples)[s] == ct(d[s]));
        assert(tuples[r] == ct(keys[r]));
        assert(in_block(p.starts@, p.rows@, s, r) <==> tuples[r] == first_seen(tuples)[s]);
        if ct(keys[r]) == ct(keys[i]) {
            assert(keys[r] == keys[i]);
        }
    }
}

/// The blocks of a partition by row key, copied out as lists of rows, group
/// the rows by key.
proof fn lemma_groups_from_blocks(
    rows: Seq<Vec<u64>>,
    z: Seq<(&[usize], usize)>,
    p: StrataPartition,
    groups: Seq<Vec<usize>>,
)
    requires
        p.groups(row_tuples(z, rows.len())),
        p.starts@.len() == first_seen(row_keys(rows)).len() + 1,
        forall|s: int, r: int|
            0 <= s < first_seen(row_keys(rows)).len() && 0 <= r < rows.len() ==> (#[trigger] in_block(
                p.starts@,
                p.rows@,
                s,
                r,
            ) <==> row_keys(rows)[r] == first_seen(row_keys(rows))[s]),
        groups.len() == first_seen(row_keys(rows)).len(),
        forall|g: int| 0 <= g < groups.len() ==> (#[trigger] groups[g])@ == p.rows@.subrange(
            p.starts@[g] as int,
            p.starts@[g + 1] as int,
        ).map_values(|x: u32| x as usize),
    ensures
        groups_rows_by_key(groups, row_keys(rows)),
{
    let keys = row_keys(rows);
    let d = first_seen(keys);
    let tuples = row_tuples(z, rows.len());
    let n = rows.len() as int;
    assert forall|g: int, i: int, j: int| 0 <= g < groups.len() && 0 <= i < j < groups[g]@.len() implies #[trigger] groups[g]@[i]
        < #[trigger] groups[g]@[j] by {
        let lo = p.starts@[g] as int;
        crate::strata::lemma_starts_bounded(p.starts@, p.rows@, tuples, g + 1);
        assert(groups[g]@[i] == p.rows@[lo + i] as usize);
        assert(groups[g]@[j] == p.rows@[lo + j] as usize);
        assert(p.rows@[lo + i] < p.rows@[lo + j]);
    }
    assert forall|g: int, i: int| 0 <= g < groups.len() && 0 <= i < groups[g]@.len() implies (#[trigger] groups[g]@[i] as int)
        < keys.len() && keys[groups[g]@[i] as int] == d[g] by {
        let lo = p.starts@[g] as int;
        crate::strata::lemma_starts_bounded(p.starts@, p.rows@, tuples, g + 1);
        assert(groups[g]@[i] == p.rows@[lo + i] as usize);
        assert((p.rows@[lo + i] as int) < n);
        assert(in_block(p.starts@, p.rows@, g, p.rows@[lo + i] as int));
    }
    assert forall|g: int, r: int| 0 <= g < groups.len() && 0 <= r < keys.len() && keys[r] == d[g] implies #[trigger] groups[g]@.contains(
        r as usize,
    ) by {
        assert(in_block(p.starts@, p.rows@, g, r));
        let q = choose|q: int| p.starts@[g] <= q < p.starts@[g + 1] && p.rows@[q] as int == r;
        let lo = p.starts@[g] as int;
        crate::strata::lemma_starts_bounded(p.starts@, p.rows@, tuples, g + 1);
        assert(groups[g]@[q - lo] == r as usize);
    }
}

/// Partition the rows into groups that share the same combination of
/// values (as categories: `-0.0` equals `0.0`, NaN equals NaN). Each group
/// lists its rows in increasing order; groups come in the order their
/// combination first occurs. Row indices are grouped as `u32`, so there must
/// be fewer than `u32::MAX` rows.
pub fn partition_indices(rows: &[Vec<u64>]) -> (res: Vec<Vec<usize>>)
    requires
        rows@.len() < u32::MAX,
        rectangular(rows@),
    ensures
        groups_rows_by_key(res@, row_keys(rows@)),
{
    let n = rows.len();
    let m: usize = if n == 0 { 0 } else { rows[0].len() };
    let mut codes: Vec<Vec<usize>> = Vec::with_capacity(m);
    let mut cards: Vec<usize> = Vec::with_capacity(m);
    let mut j: usize = 0;
    while j < m
        invariant
            n == rows@.len(),
            n > 0 ==> m == rows@[0]@.len(),
            n == 0 ==> m == 0,
            rectangular(rows@),
            j <= m,
            codes@.len() == j,
            cards@.len() == j,
            forall|i: int| 0 <= i < j ==> is_first_seen_coding(column_keys(rows@, i), (#[trigger] codes@[i])@, cards@[i] as nat),
        decreases m - j,
    {
        let mut keys: Vec<u64> = Vec::with_capacity(n);
        let mut r: usize = 0;
        while r < n
            invariant
                n == rows@.len(),
                n > 0 ==> m == rows@[0]@.len(),
                rectangular(rows@),
                j < m,
                r <= n,
                keys@.len() == r,
                forall|q: int| 0 <= q < r ==> #[trigger] keys@[q] == column_keys(rows@, j as int)[q],
            decreases n - r,
        {
            assert(rows@[r as int]@.len() == m);
            keys.push(order_key_of(rows[r][j]));
            r += 1;
        }
        proof {
            assert(keys@ =~= column_keys(rows@, j as int));
        }
        let (c, k) = first_seen_codes(keys.as_slice());
        codes.push(c);
        cards.push(k);
        j += 1;
    }
    let mut z_columns: Vec<(&[usize], usize)> = Vec::with_capacity(m);
    let mut j: usize = 0;
    while j < m
        invariant
            j <= m,
            codes@.len() == m,
            cards@.len() == m,
            z_columns@.len() == j,
            forall|i: int| 0 <= i < j ==> (#[trigger] z_columns@[i]).0@ == codes@[i]@ && z_columns@[i].1 == cards@[i],
        decreases m - j,
    {
        z_columns.push((codes[j].as_slice(), cards[j]));
        j += 1;
    }
    proof {
        assert forall|i: int| 0 <= i < m implies is_first_seen_coding(column_keys(rows@, i), (#[trigger] z_columns@[i]).0@, z_columns@[i].1 as nat) by {
            assert(z_columns@[i].0@ == codes@[i]@);
        }
        assert forall|i: int| 0 <= i < z_columns@.len() implies (#[trigger] z_columns@[i]).0@.len() == n by {
            assert(is_first_seen_coding(column_keys(rows@, i), z_columns@[i].0@, z_columns@[i].1 as nat));
        }
        assert forall|i: int, r: int| 0 <= i < z_columns@.len() && 0 <= r < n implies #[trigger] z_columns@[i].0@[r] < z_columns@[i].1 by {
            assert(is_first_seen_coding(column_keys(rows@, i), z_columns@[i].0@, z_columns@[i].1 as nat));
        }
        assert(z_columns_fit(z_columns@, n as nat));
    }
    let partition = build_strata_partition(z_columns.as_slice(), n);
    proof {
        lemma_blocks_by_row_key(rows@, m as nat, z_columns@, partition);
    }
    let ghost keys = row_keys(rows@);
    let ghost d = first_seen(keys);
    let k = partition.n_strata();
    let mut groups: Vec<Vec<usize>> = Vec::with_capacity(k);
    let mut s: usize = 0;
    while s < k
        invariant
            partition.groups(row_tuples(z_columns@, n as nat)),
            partition.starts@.len() == d.len() + 1,
            k == d.len(),
            n == rows@.len(),
            keys == row_keys(rows@),
            d == first_seen(keys),
            s <= k,
            groups@.len() == s,
            forall|g: int| 0 <= g < s ==> (#[trigger] groups@[g])@ == partition.rows@.subrange(
                partition.starts@[g] as int,
                partition.starts@[g + 1] as int,
            ).map_values(|x: u32| x as usize),
        decreases k - s,
    {
        let lo = partition.starts[s] as usize;
        let hi = partition.starts[s + 1] as usize;
        proof {
            assert(partition.starts@[s as int] <= partition.starts@[s + 1]);
            crate::strata::lemma_starts_bounded(partition.starts@, partition.rows@, row_tuples(z_columns@, n as nat), s + 1);
        }
        let mut g: Vec<usize> = Vec::with_capacity(hi - lo);
        let mut q: usize = lo;
        while q < hi
            invariant
                lo <= q <= hi,
                hi <= partition.rows@.len(),
                g@ == partition.rows@.subrange(lo as int, q as int).map_values(|x: u32| x as usize),
            decreases hi - q,
        {
            g.push(partition.rows[q] as usize);
            proof {
                assert(partition.rows@.subrange(lo as int, q + 1).map_values(|x: u32| x as usize) =~= partition.rows@.subrange(
                    lo as int,
                    q as int,
                ).map_values(|x: u32| x as usize).push(partition.rows@[q as int] as usize));
            }
            q += 1;
        }
        groups.push(g);
        s += 1;
    }
    proof {
        lemma_groups_from_blocks(rows@, z_columns@, partition, groups@);
    }
    groups
}

/// `a <= b`, the order of category keys.
pub open spec fn key_leq() -> spec_fn(u64, u64) -> bool {
    |a: u64, b: u64| a <= b
}

/// The category keys of a column of values.
pub open spec fn value_keys(values: Seq<u64>) -> Seq<u64> {
    values.map_values(|b: u64| order_key(b))
}

/// The distinct categories of a column of values, in increasing order.
pub open spec fn sorted_categories(values: Seq<u64>) -> Seq<u64> {
    first_seen(value_keys(values)).sort_by(key_leq())
}

/// The numbering of the categories of a column: each category's key maps to
/// its position among the distinct categories in increasing order.
pub open spec fn category_map(values: Seq<u64>) -> Map<u64, usize> {
    Map::new(
        |k: u64| sorted_categories(values).contains(k),
        |k: u64| sorted_categories(values).index_of(k) as usize,
    )
}

proof fn lemma_key_leq_total()
    ensures
        total_ordering(key_leq()),
{
}

/// Sorts keys in ascending order (std's `slice::sort_unstable`): the result
/// is ascending and holds the same keys as before, each as often.
#[verifier::external_body]
fn sort_keys(v: &mut Vec<u64>)
    ensures
        sorted_by(final(v)@, key_leq()),
        final(v)@.to_multiset() == old(v)@.to_multiset(),
{
    v.sort_unstable();
}

/// The distinct keys of `keys` in increasing order.
fn distinct_sorted(keys: Vec<u64>) -> (res: Vec<u64>)
    ensures
        res@ == first_seen(keys@).sort_by(key_leq()),
{
    broadcast use vstd::seq_lib::group_to_multiset_ensures;

    let ghost input_keys = keys@;
    let mut sorted = keys;
    sort_keys(&mut sorted);
    let mut out: Vec<u64> = Vec::with_capacity(sorted.len());
    let mut i: usize = 0;
    while i < sorted.len()
        invariant
            i <= sorted@.len(),
            sorted_by(sorted@, key_leq()),
            sorted@.to_multiset() == input_keys.to_multiset(),
            forall|a: int, b: int| 0 <= a < b < out@.len() ==> out@[a] < out@[b],
            forall|k: u64| out@.contains(k) <==> sorted@.take(i as int).contains(k),
            out@.len() > 0 ==> i > 0 && out@.last() == sorted@[i - 1],
        decreases sorted.len() - i,
    {
        let k = sorted[i];
        let fresh = out.len() == 0 || out[out.len() - 1] != k;
        proof {
            assert(sorted@.take(i + 1) =~= sorted@.take(i as int).push(k));
            if out@.len() > 0 {
                assert(key_leq()(sorted@[i - 1], sorted@[i as int]));
            }
        }
        if fresh {
            let ghost before = out@;
            out.push(k);
            proof {
                assert forall|a: int, b: int| 0 <= a < b < out@.len() implies out@[a] < out@[b] by {
                    if b == out@.len() - 1 && a < b {
                        if before.len() > 0 {
                            assert(before.last() <= k);
                            if a < before.len() - 1 {
                                assert(before[a] < before.last());
                            }
                        }
                    }
                }
                assert forall|x: u64| out@.contains(x) <==> sorted@.take(i + 1).contains(x) by {
                    if out@.contains(x) && x != k {
                        let j = choose|j: int| 0 <= j < out@.len() && out@[j] == x;
                        assert(before[j] == x);
                    }
                    if before.contains(x) {
                        let j = choose|j: int| 0 <= j < before.len() && before[j] == x;
                        assert(out@[j] == x);
                    }
                    if sorted@.take(i + 1).contains(x) && x != k {
                        let j = choose|j: int| 0 <= j < i + 1 && #[trigger] sorted@.take(i + 1)[j] == x;
                        assert(sorted@.take(i as int)[j] == x);
                    }
                    if x == k {
                        assert(out@[out@.len() - 1] == k);
                        assert(sorted@.take(i + 1)[i as int] == k);
                    }
                }
            }
        } else {
            proof {
                assert forall|x: u64| out@.contains(x) <==> sorted@.take(i + 1).contains(x) by {
                    if sorted@.take(i + 1).contains(x) && x != k {
                        let j = choose|j: int| 0 <= j < i + 1 && #[trigger] sorted@.take(i + 1)[j] == x;
                        assert(sorted@.take(i as int)[j] == x);
                    }
                    if x == k {
                        assert(out@[out@.len() - 1] == k);
                    }
                }
            }
        }
        i += 1;
    }
    proof {
        assert(sorted@.take(sorted@.len() as int) =~= sorted@);
        let d = first_seen(input_keys);
        lemma_first_seen(input_keys);
        d.lemma_sort_by_ensures(key_leq());
        assert forall|k: u64| out@.contains(k) <==> d.contains(k) by {
            assert(sorted@.to_multiset().count(k) == input_keys.to_multiset().count(k));
            if input_keys.contains(k) {
                let j = choose|j: int| 0 <= j < input_keys.len() && input_keys[j] == k;
                assert(d.contains(input_keys[j]));
            }
            if d.contains(k) {
                let s = choose|s: int| 0 <= s < d.len() && d[s] == k;
                assert(input_keys.contains(d[s]));
            }
        }
        assert(out@.no_duplicates()) by {
            assert forall|a: int, b: int| 0 <= a < out@.len() && 0 <= b < out@.len() && a != b implies out@[a] != out@[b] by {
                if a < b {
                    assert(out@[a] < out@[b]);
                } else {
                    assert(out@[b] < out@[a]);
                }
            }
        }
        let sd = d.sort_by(key_leq());
        assert forall|k: u64| sd.contains(k) <==> d.contains(k) by {
            assert(sd.to_multiset().count(k) == d.to_multiset().count(k));
        }
        assert(sd.no_duplicates()) by {
            d.lemma_multiset_has_no_duplicates();
            assert(sd.to_multiset() == d.to_multiset());
            sd.lemma_multiset_has_no_duplicates_conv();
        }
        lemma_same_elements_same_multiset(out@, sd);
        assert(sorted_by(out@, key_leq())) by {
            assert forall|a: int, b: int| 0 <= a < b < out@.len() implies #[trigger] key_leq()(out@[a], out@[b]) by {
                assert(out@[a] < out@[b]);
            }
        }
        lemma_key_leq_total();
        vstd::seq_lib::lemma_sorted_unique(out@, sd, key_leq());
    }
    out
}

/// The distinct categories hold each category of the column once.
pub proof fn lemma_sorted_categories(values: Seq<u64>)
    ensures
        sorted_categories(values).no_duplicates(),
        sorted_categories(values).len() <= values.len(),
        forall|k: u64| sorted_categories(values).contains(k) <==> value_keys(values).contains(k),
        sorted_by(sorted_categories(values), key_leq()),
{
    broadcast use vstd::seq_lib::group_to_multiset_ensures;

    let keys = value_keys(values);
    let d = first_seen(keys);
    let sd = sorted_categories(values);
    lemma_first_seen(keys);
    d.lemma_sort_by_ensures(key_leq());
    d.lemma_multiset_has_no_duplicates();
    assert(sd.to_multiset() == d.to_multiset());
    sd.lemma_multiset_has_no_duplicates_conv();
    assert forall|k: u64| sd.contains(k) <==> keys.contains(k) by {
        assert(sd.to_multiset().count(k) == d.to_multiset().count(k));
        if keys.contains(k) {
            let j = choose|j: int| 0 <= j < keys.len() && keys[j] == k;
            assert(d.contains(keys[j]));
        }
        if d.contains(k) {
            let s = choose|s: int| 0 <= s < d.len() && d[s] == k;
            assert(keys.contains(d[s]));
        }
    }
    assert(sd.len() == d.len()) by {
        assert(sd.to_multiset().len() == d.to_multiset().len());
    }
}

/// The category keys of a column of values.
fn keys_of(values: &[u64]) -> (res: Vec<u64>)
    ensures
        res@ == value_keys(values@),
{
    let mut keys: Vec<u64> = Vec::with_capacity(values.len());
    let mut i: usize = 0;
    while i < values.len()
        invariant
            i <= values@.len(),
            keys@.len() == i,
            forall|j: int| 0 <= j < i ==> #[trigger] keys@[j] == order_key(values@[j]),
        decreases values.len() - i,
    {
        keys.push(order_key_of(values[i]));
        i += 1;
    }
    proof {
        assert(keys@ =~= value_keys(values@));
    }
    keys
}

/// Number every distinct value of a column (as a category) by value: the
/// smallest gets 0, the next 1, and so on, with NaN last. Passing the same
/// map to several tables gives them the same rows or columns.
pub fn build_global_category_map(values: &[u64]) -> (res: HashMap<u64, usize>)
    ensures
        res@ == category_map(values@),
{
    let cats = distinct_sorted(keys_of(values));
    proof {
        lemma_sorted_categories(values@);
    }
    let ghost sc = sorted_categories(values@);
    let mut map: HashMap<u64, usize> = HashMap::new();
    let mut i: usize = 0;
    while i < cats.len()
        invariant
            cats@ == sc,
            sc.no_duplicates(),
            i <= cats@.len(),
            forall|k: u64| #[trigger] map@.contains_key(k) <==> cats@.take(i as int).contains(k),
            forall|k: u64| #[trigger] map@.contains_key(k) ==> map@[k] == cats@.index_of(k) as usize,
        decreases cats.len() - i,
    {
        let k = cats[i];
        proof {
            assert(cats@.contains(k));
            let j = cats@.index_of(k);
            assert(cats@[j] == k);
            assert(j == i);
            assert(cats@.take(i + 1) =~= cats@.take(i as int).push(k));
        }
        map.insert(k, i);
        proof {
            assert forall|x: u64| #[trigger] map@.contains_key(x) <==> cats@.take(i + 1).contains(x) by {
                if cats@.take(i + 1).contains(x) && x != k {
                    let j = choose|j: int| 0 <= j < i + 1 && #[trigger] cats@.take(i + 1)[j] == x;
                    assert(cats@.take(i as int)[j] == x);
                }
                if cats@.take(i as int).contains(x) {
                    let j = choose|j: int| 0 <= j < i && #[trigger] cats@.take(i as int)[j] == x;
                    assert(cats@.take(i + 1)[j] == x);
                }
                if x == k {
                    assert(cats@.take(i + 1)[i as int] == k);
                }
            }
        }
        i += 1;
    }
    proof {
        assert(cats@.take(cats@.len() as int) =~= cats@);
        assert(map@ =~= category_map(values@));
    }
    map
}

/// A numbering of categories: every number is below the number of
/// categories.
pub open spec fn numbering_fits(m: Map<u64, usize>) -> bool {
    forall|k: u64| #[trigger] m.contains_key(k) ==> (m[k] as int) < m.len()
}

/// The `(row category, column category)` pairs of the first `n` rows whose
/// two values both have a number in the given numberings.
pub open spec fn category_pairs(
    col1: Seq<u64>,
    col2: Seq<u64>,
    m1: Map<u64, usize>,
    m2: Map<u64, usize>,
    n: nat,
) -> Seq<(usize, usize)>
    decreases n,
{
    if n == 0 {
        Seq::empty()
    } else {
        let prev = category_pairs(col1, col2, m1, m2, (n - 1) as nat);
        let k1 = order_key(col1[n - 1]);
        let k2 = order_key(col2[n - 1]);
        if m1.contains_key(k1) && m2.contains_key(k2) {
            prev.push((m1[k1], m2[k2]))
        } else {
            prev
        }
    }
}

/// The table of how often each pair occurs, `rows × cols`.
pub open spec fn pairs_table(pairs: Seq<(usize, usize)>, rows: nat, cols: nat) -> Seq<Seq<usize>> {
    pair_table(
        pairs.map_values(|p: (usize, usize)| p.0),
        pairs.map_values(|p: (usize, usize)| p.1),
        all_rows(pairs.len()),
        rows,
        cols,
    )
}

/// The numbers, in `m`, of the categories of `col` at the rows `indices`.
pub open spec fn indexed_codes(indices: Seq<usize>, col: Seq<u64>, m: Map<u64, usize>) -> Seq<usize> {
    Seq::new(indices.len(), |i: int| m[order_key(col[indices[i] as int])])
}

/// Both values of pair `i` have a category number.
pub open spec fn pair_numbered(col1: Seq<u64>, col2: Seq<u64>, m1: Map<u64, usize>, m2: Map<u64, usize>, i: int) -> bool {
    m1.contains_key(order_key(col1[i])) && m2.contains_key(order_key(col2[i]))
}

/// The pairs that are counted are exactly the numbered ones among the first
/// `n`, each one of them, in row order, whatever comes before it: the
/// category pairs are the rows `i < n` whose two values are both numbered,
/// mapped to their two numbers.
pub proof fn lemma_category_pairs_are_numbered_rows(
    col1: Seq<u64>,
    col2: Seq<u64>,
    m1: Map<u64, usize>,
    m2: Map<u64, usize>,
    n: nat,
)
    ensures
        category_pairs(col1, col2, m1, m2, n) == Seq::new(n, |i: int| i).filter(
            |i: int| pair_numbered(col1, col2, m1, m2, i),
        ).map_values(|i: int| (m1[order_key(col1[i])], m2[order_key(col2[i])])),
    decreases n,
{
    reveal(Seq::filter);
    let f = |i: int| (m1[order_key(col1[i])], m2[order_key(col2[i])]);
    let pred = |i: int| pair_numbered(col1, col2, m1, m2, i);
    if n > 0 {
        lemma_category_pairs_are_numbered_rows(col1, col2, m1, m2, (n - 1) as nat);
        let idx = Seq::new(n, |i: int| i);
        assert(idx.drop_last() =~= Seq::new((n - 1) as nat, |i: int| i));
        assert(idx.last() == n - 1);
        let prev = Seq::new((n - 1) as nat, |i: int| i).filter(pred);
        if pred(n - 1) {
            assert(idx.filter(pred) == prev.push(n - 1));
            assert(prev.push(n - 1).map_values(f) =~= prev.map_values(f).push(f(n - 1)));
        } else {
            assert(idx.filter(pred) == prev);
        }
    } else {
        assert(Seq::new(0, |i: int| i).filter(pred) =~= Seq::<int>::empty());
        assert(Seq::<int>::empty().map_values(f) =~= Seq::<(usize, usize)>::empty());
    }
}

/// Count the pairs `(col1[i], col2[i])`, `i < col1.len()`, whose values both
/// have a category number in the given maps, into a table with a row per
/// entry of `col1_map` and a column per entry of `col2_map`; pairs with an
/// unnumbered value are left out. Several tables built with the same maps
/// share their rows and columns.
pub fn contingency_table_with_categories(
    col1: &[u64],
    col2: &[u64],
    col1_map: &HashMap<u64, usize>,
    col2_map: &HashMap<u64, usize>,
) -> (res: ContingencyTable)
    requires
        col1@.len() <= col2@.len(),
        numbering_fits(col1_map@),
        numbering_fits(col2_map@),
        col1_map@.len() * col2_map@.len() <= usize::MAX,
    ensures
        res.wf(),
        res.n_rows_spec() == col1_map@.len(),
        res.n_cols_spec() == col2_map@.len(),
        res.cells() == pairs_table(
            category_pairs(col1@, col2@, col1_map@, col2_map@, col1@.len()),
            col1_map@.len(),
            col2_map@.len(),
        ),
{
    let ghost m1 = col1_map@;
    let ghost m2 = col2_map@;
    let mut xs: Vec<usize> = Vec::with_capacity(col1.len());
    let mut ys: Vec<usize> = Vec::with_capacity(col1.len());
    let mut i: usize = 0;
    while i < col1.len()
        invariant
            i <= col1@.len(),
            col1@.len() <= col2@.len(),
            m1 == col1_map@,
            m2 == col2_map@,
            numbering_fits(m1),
            numbering_fits(m2),
            xs@ == category_pairs(col1@, col2@, m1, m2, i as nat).map_values(|p: (usize, usize)| p.0),
            ys@ == category_pairs(col1@, col2@, m1, m2, i as nat).map_values(|p: (usize, usize)| p.1),
            forall|j: int| 0 <= j < xs@.len() ==> (#[trigger] xs@[j] as int) < m1.len(),
            forall|j: int| 0 <= j < ys@.len() ==> (#[trigger] ys@[j] as int) < m2.len(),
        decreases col1.len() - i,
    {
        let k1 = order_key_of(col1[i]);
        let k2 = order_key_of(col2[i]);
        let ghost prev = category_pairs(col1@, col2@, m1, m2, i as nat);
        match (col1_map.get(&k1), col2_map.get(&k2)) {
            (Some(r), Some(c)) => {
                xs.push(*r);
                ys.push(*c);
                proof {
                    assert(category_pairs(col1@, col2@, m1, m2, (i + 1) as nat) == prev.push((*r, *c)));
                    assert(xs@ =~= prev.push((*r, *c)).map_values(|p: (usize, usize)| p.0));
                    assert(ys@ =~= prev.push((*r, *c)).map_values(|p: (usize, usize)| p.1));
                }
            },
            _ => {
                proof {
                    assert(category_pairs(col1@, col2@, m1, m2, (i + 1) as nat) == prev);
                }
            },
        }
        i += 1;
    }
    let rows = col1_map.len();
    let cols = col2_map.len();
    let mut table = ContingencyTable::zeros(rows, cols);
    table.tabulate_all(xs.as_slice(), ys.as_slice());
    proof {
        let pairs = category_pairs(col1@, col2@, m1, m2, col1@.len());
        assert(xs@.len() == pairs.len());
    }
    table
}

/// Count the pairs `(x_values[i], y_values[i])` over the rows `indices` into
/// a table with a row per entry of `x_categories` and a column per entry of
/// `y_categories`. Every value at those rows must have a category number.
pub fn contingency_table_from_indices(
    indices: &[usize],
    x_values: &[u64],
    y_values: &[u64],
    x_categories: &HashMap<u64, usize>,
    y_categories: &HashMap<u64, usize>,
) -> (res: ContingencyTable)
    requires
        forall|i: int| 0 <= i < indices@.len() ==> (#[trigger] indices@[i] as int) < x_values@.len() && (indices@[i] as int)
            < y_values@.len(),
        forall|i: int| 0 <= i < indices@.len() ==> x_categories@.contains_key(order_key(x_values@[#[trigger] indices@[i] as int]))
            && y_categories@.contains_key(order_key(y_values@[indices@[i] as int])),
        numbering_fits(x_categories@),
        numbering_fits(y_categories@),
        x_categories@.len() * y_categories@.len() <= usize::MAX,
    ensures
        res.wf(),
        res.n_rows_spec() == x_categories@.len(),
        res.n_cols_spec() == y_categories@.len(),
        res.cells() == pair_table(
            indexed_codes(indices@, x_values@, x_categories@),
            indexed_codes(indices@, y_values@, y_categories@),
            all_rows(indices@.len()),
            x_categories@.len(),
            y_categories@.len(),
        ),
{
    let mut xs: Vec<usize> = Vec::with_capacity(indices.len());
    let mut ys: Vec<usize> = Vec::with_capacity(indices.len());
    let mut i: usize = 0;
    while i < indices.len()
        invariant
            i <= indices@.len(),
            forall|j: int| 0 <= j < indices@.len() ==> (#[trigger] indices@[j] as int) < x_values@.len() && (indices@[j] as int)
                < y_values@.len(),
            forall|j: int| 0 <= j < indices@.len() ==> x_categories@.contains_key(order_key(x_values@[#[trigger] indices@[j] as int]))
                && y_categories@.contains_key(order_key(y_values@[indices@[j] as int])),
            numbering_fits(x_categories@),
            numbering_fits(y_categories@),
            xs@ == indexed_codes(indices@, x_values@, x_categories@).take(i as int),
            ys@ == indexed_codes(indices@, y_values@, y_categories@).take(i as int),
        decreases indices.len() - i,
    {
        let row = indices[i];
        let kx = order_key_of(x_values[row]);
        let ky = order_key_of(y_values[row]);
        let r = *x_categories.get(&kx).unwrap();
        let c = *y_categories.get(&ky).unwrap();
        xs.push(r);
        ys.push(c);
        proof {
            assert(xs@ =~= indexed_codes(indices@, x_values@, x_categories@).take(i + 1));
            assert(ys@ =~= indexed_codes(indices@, y_values@, y_categories@).take(i + 1));
        }
        i += 1;
    }
    proof {
        assert(xs@ =~= indexed_codes(indices@, x_values@, x_categories@));
        assert(ys@ =~= indexed_codes(indices@, y_values@, y_categories@));
        assert forall|j: int| 0 <= j < xs@.len() implies (#[trigger] xs@[j] as int) < x_categories@.len() by {
            assert(x_categories@.contains_key(order_key(x_values@[indices@[j] as int])));
        }
        assert forall|j: int| 0 <= j < ys@.len() implies (#[trigger] ys@[j] as int) < y_categories@.len() by {
            assert(y_categories@.contains_key(order_key(y_values@[indices@[j] as int])));
        }
    }
    let mut table = ContingencyTable::zeros(x_categories.len(), y_categories.len());
    table.tabulate_all(xs.as_slice(), ys.as_slice());
    table
}

/// The rank of the category of value `b` among the distinct categories of
/// the column `values`.
pub open spec fn category_rank(values: Seq<u64>, b: u64) -> usize {
    sorted_categories(values).index_of(order_key(b)) as usize
}

/// The `(row, column)` category ranks of the first `n` value pairs.
pub open spec fn value_pairs(col1: Seq<u64>, col2: Seq<u64>, n: nat) -> Seq<(usize, usize)> {
    Seq::new(n, |i: int| (category_rank(col1, col1[i]), category_rank(col2, col2[i])))
}

/// The category numbering of a column has an entry per distinct category,
/// each below their count, and numbers each value of the column by its rank.
pub proof fn lemma_category_map(values: Seq<u64>)
    requires
        values.len() <= usize::MAX,
    ensures
        category_map(values).len() == sorted_categories(values).len(),
        numbering_fits(category_map(values)),
        forall|i: int| 0 <= i < values.len() ==> category_map(values).contains_key(order_key(#[trigger] values[i]))
            && category_map(values)[order_key(values[i])] == category_rank(values, values[i]),
        forall|b: u64| #[trigger] category_map(values).contains_key(order_key(b)) ==> (category_rank(values, b) as int)
            < sorted_categories(values).len(),
{
    lemma_sorted_categories(values);
    let sc = sorted_categories(values);
    let m = category_map(values);
    assert(m.dom() =~= sc.to_set());
    sc.unique_seq_to_set();
    assert forall|k: u64| #[trigger] m.contains_key(k) implies (m[k] as int) < m.len() by {
        let i = sc.index_of(k);
        assert(sc[i] == k);
    }
    assert forall|i: int| 0 <= i < values.len() implies m.contains_key(order_key(#[trigger] values[i])) && m[order_key(values[i])]
        == category_rank(values, values[i]) by {
        assert(value_keys(values)[i] == order_key(values[i]));
        assert(value_keys(values).contains(order_key(values[i])));
    }
    assert forall|b: u64| #[trigger] m.contains_key(order_key(b)) implies (category_rank(values, b) as int) < sc.len() by {
        let i = sc.index_of(order_key(b));
        assert(sc[i] == order_key(b));
    }
}

proof fn lemma_pairs_of_full_maps(col1: Seq<u64>, col2: Seq<u64>, n: nat)
    requires
        n <= col1.len(),
        n <= col2.len(),
        col1.len() <= usize::MAX,
        col2.len() <= usize::MAX,
    ensures
        category_pairs(col1, col2, category_map(col1), category_map(col2), n) == value_pairs(col1, col2, n),
    decreases n,
{
    lemma_category_map(col1);
    lemma_category_map(col2);
    if n > 0 {
        lemma_pairs_of_full_maps(col1, col2, (n - 1) as nat);
        assert(category_map(col1).contains_key(order_key(col1[n - 1])));
        assert(category_map(col2).contains_key(order_key(col2[n - 1])));
        assert(value_pairs(col1, col2, n) =~= value_pairs(col1, col2, (n - 1) as nat).push(
            (category_rank(col1, col1[n - 1]), category_rank(col2, col2[n - 1])),
        ));
    }
}

/// Count how often each pair `(col1[i], col2[i])`, `i < col1.len()`, occurs,
/// as a table whose rows are the categories of `col1` and whose columns are
/// those of `col2`, each in increasing order of value: the table does not
/// depend on the order of the pairs.
pub fn contingency_table(col1: &[u64], col2: &[u64]) -> (res: ContingencyTable)
    requires
        col1@.len() <= col2@.len(),
        sorted_categories(col1@).len() * sorted_categories(col2@).len() <= usize::MAX,
    ensures
        res.wf(),
        res.n_rows_spec() == sorted_categories(col1@).len(),
        res.n_cols_spec() == sorted_categories(col2@).len(),
        res.cells() == pairs_table(
            value_pairs(col1@, col2@, col1@.len()),
            sorted_categories(col1@).len(),
            sorted_categories(col2@).len(),
        ),
{
    let col1_map = build_global_category_map(col1);
    let col2_map = build_global_category_map(col2);
    proof {
        assert(col1@.len() == col1.len());
        assert(col2@.len() == col2.len());
        lemma_category_map(col1@);
        lemma_category_map(col2@);
        lemma_pairs_of_full_maps(col1@, col2@, col1@.len());
    }
    contingency_table_with_categories(col1, col2, &col1_map, &col2_map)
}

/// `perm` lists each of the rows `0..n` exactly once.
pub open spec fn is_permutation(perm: Seq<int>, n: nat) -> bool {
    &&& perm.len() == n
    &&& forall|i: int| 0 <= i < n ==> 0 <= #[trigger] perm[i] < n
    &&& perm.no_duplicates()
}

/// A permutation of `0..n` lists every row of `0..n`, and holds the same
/// rows as `0..n` in order.
proof fn lemma_permutation_covers(perm: Seq<int>, n: nat)
    requires
        is_permutation(perm, n),
    ensures
        forall|j: int| 0 <= j < n ==> perm.contains(j),
        perm.to_multiset() == all_rows(n).to_multiset(),
{
    perm.unique_seq_to_set();
    lemma_int_range(0, n as int);
    assert(perm.to_set().subset_of(set_int_range(0, n as int))) by {
        assert forall|x: int| perm.to_set().contains(x) implies set_int_range(0, n as int).contains(x) by {
            let i = choose|i: int| 0 <= i < perm.len() && perm[i] == x;
        }
    }
    lemma_subset_equality(perm.to_set(), set_int_range(0, n as int));
    assert forall|j: int| 0 <= j < n implies perm.contains(j) by {
        assert(set_int_range(0, n as int).contains(j));
        assert(perm.to_set().contains(j));
    }
    let rows = all_rows(n);
    assert(rows.no_duplicates());
    assert forall|k: int| perm.contains(k) <==> rows.contains(k) by {
        if rows.contains(k) {
            let i = choose|i: int| 0 <= i < rows.len() && rows[i] == k;
        }
        if perm.contains(k) {
            let i = choose|i: int| 0 <= i < perm.len() && perm[i] == k;
            assert(rows[k] == k);
        }
    }
    lemma_same_elements_same_multiset(perm, rows);
}

/// Permuting the rows of a column keeps its categories.
proof fn lemma_categories_order_free(col: Seq<u64>, perm: Seq<int>, c: Seq<u64>)
    requires
        is_permutation(perm, col.len()),
        c.len() == col.len(),
        forall|i: int| 0 <= i < c.len() ==> c[i] == col[#[trigger] perm[i]],
    ensures
        sorted_categories(c) == sorted_categories(col),
{
    lemma_permutation_covers(perm, col.len());
    lemma_sorted_categories(c);
    lemma_sorted_categories(col);
    assert forall|k: u64| value_keys(c).contains(k) <==> value_keys(col).contains(k) by {
        if value_keys(c).contains(k) {
            let i = choose|i: int| 0 <= i < c.len() && value_keys(c)[i] == k;
            assert(value_keys(col)[perm[i]] == k);
        }
        if value_keys(col).contains(k) {
            let j = choose|j: int| 0 <= j < col.len() && value_keys(col)[j] == k;
            assert(perm.contains(j));
            let i = choose|i: int| 0 <= i < perm.len() && perm[i] == j;
            assert(value_keys(c)[i] == k);
        }
    }
    let a = sorted_categories(c);
    let b = sorted_categories(col);
    assert forall|k: u64| a.contains(k) <==> b.contains(k) by {}
    lemma_same_elements_same_multiset(a, b);
    lemma_key_leq_total();
    vstd::seq_lib::lemma_sorted_unique(a, b, key_leq());
}

/// The contingency table of a list of value pairs does not depend on their
/// order: listing the same pairs in another order gives the same categories
/// and the same counts.
pub proof fn lemma_contingency_table_order_free(
    col1: Seq<u64>,
    col2: Seq<u64>,
    perm: Seq<int>,
    c1: Seq<u64>,
    c2: Seq<u64>,
)
    requires
        col1.len() == col2.len(),
        is_permutation(perm, col1.len()),
        c1.len() == col1.len(),
        c2.len() == col2.len(),
        forall|i: int| 0 <= i < c1.len() ==> c1[i] == col1[#[trigger] perm[i]] && c2[i] == col2[perm[i]],
    ensures
        sorted_categories(c1) == sorted_categories(col1),
        sorted_categories(c2) == sorted_categories(col2),
        pairs_table(value_pairs(c1, c2, c1.len()), sorted_categories(col1).len(), sorted_categories(col2).len())
            == pairs_table(value_pairs(col1, col2, col1.len()), sorted_categories(col1).len(), sorted_categories(col2).len()),
{
    let n = col1.len();
    lemma_categories_order_free(col1, perm, c1);
    assert forall|i: int| 0 <= i < c2.len() implies c2[i] == col2[#[trigger] perm[i]] by {}
    lemma_categories_order_free(col2, perm, c2);
    lemma_permutation_covers(perm, n);
    let vp = value_pairs(col1, col2, n);
    let vq = value_pairs(c1, c2, n);
    let x = vp.map_values(|p: (usize, usize)| p.0);
    let y = vp.map_values(|p: (usize, usize)| p.1);
    let x2 = vq.map_values(|p: (usize, usize)| p.0);
    let y2 = vq.map_values(|p: (usize, usize)| p.1);
    let k1 = sorted_categories(col1).len();
    let k2 = sorted_categories(col2).len();
    assert forall|a: int, b: int| 0 <= a < k1 && 0 <= b < k2 implies pair_count(x2, y2, all_rows(n), a, b) == pair_count(
        x,
        y,
        all_rows(n),
        a,
        b,
    ) by {
        lemma_pair_count_reindex(x, y, x2, y2, perm, n as int, a, b);
        assert(perm.take(n as int) =~= perm);
        lemma_pair_count_order_free(x, y, perm, all_rows(n), a, b);
    }
    let t1 = pairs_table(vq, k1, k2);
    let t2 = pairs_table(vp, k1, k2);
    assert forall|a: int| 0 <= a < k1 implies #[trigger] t1[a] == t2[a] by {
        assert(t1[a] =~= t2[a]);
    }
    assert(t1 =~= t2);
}

} // verus!
