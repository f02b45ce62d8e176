//! Stable grouping of row indices by a dense group id (a counting sort), and
//! the counting facts its proof rests on.

use vstd::prelude::*;

verus! {

/// Number of positions `r < m` with `ids[r] == s`.
pub open spec fn count_eq(ids: Seq<u32>, m: int, s: int) -> nat
    decreases m,
{
    if m <= 0 {
        0
    } else {
        count_eq(ids, m - 1, s) + if ids[m - 1] as int == s { 1nat } else { 0nat }
    }
}

/// Number of positions `r < m` with `ids[r] < s`.
pub open spec fn count_lt(ids: Seq<u32>, m: int, s: int) -> nat
    decreases m,
{
    if m <= 0 {
        0
    } else {
        count_lt(ids, m - 1, s) + if (ids[m - 1] as int) < s { 1nat } else { 0nat }
    }
}

/// The slot a stable counting sort gives position `q`: the positions with a
/// smaller id, plus the earlier positions with the same id.
pub open spec fn slot_of(ids: Seq<u32>, q: int) -> int {
    (count_lt(ids, ids.len() as int, ids[q] as int) + count_eq(ids, q, ids[q] as int)) as int
}

/// Slot `p` is the slot of some position.
spec fn slot_taken(ids: Seq<u32>, p: int) -> bool {
    exists|q: int| 0 <= q < ids.len() && #[trigger] slot_of(ids, q) == p
}

/// `starts`/`rows` group the positions of `ids` by id, for ids below `k`:
/// `rows` is a permutation of `0..ids.len()`, block `s` (the positions
/// `starts[s]..starts[s + 1]` of `rows`) holds exactly the positions whose id
/// is `s`, in increasing order.
pub open spec fn groups_by_id(starts: Seq<u32>, rows: Seq<u32>, ids: Seq<u32>, k: nat) -> bool {
    let n = ids.len();
    &&& starts.len() == k + 1
    &&& rows.len() == n
    &&& starts[0] == 0
    &&& starts[k as int] == n
    &&& forall|s: int| 0 <= s < k ==> #[trigger] starts[s] <= starts[s + 1]
    &&& forall|p: int| 0 <= p < n ==> (#[trigger] rows[p] as int) < n
    &&& forall|p: int, q: int| 0 <= p < n && 0 <= q < n && p != q ==> #[trigger] rows[p] != #[trigger] rows[q]
    &&& forall|s: int, p: int|
        #![trigger starts[s], rows[p]]
        0 <= s < k && starts[s] <= p < starts[s + 1] ==> ids[rows[p] as int] == s
    &&& forall|s: int, p: int, q: int|
        #![trigger starts[s], rows[p], rows[q]]
        0 <= s < k && starts[s] <= p < q < starts[s + 1] ==> rows[p] < rows[q]
}

proof fn lemma_counts_bounded(ids: Seq<u32>, m: int, s: int)
    requires
        0 <= m,
    ensures
        count_eq(ids, m, s) <= m,
        count_lt(ids, m, s) <= m,
    decreases m,
{
    if m > 0 {
        lemma_counts_bounded(ids, m - 1, s);
    }
}

proof fn lemma_count_lt_step(ids: Seq<u32>, m: int, s: int)
    requires
        0 <= m,
    ensures
        count_lt(ids, m, s + 1) == count_lt(ids, m, s) + count_eq(ids, m, s),
    decreases m,
{
    if m > 0 {
        lemma_count_lt_step(ids, m - 1, s);
    }
}

proof fn lemma_count_lt_zero(ids: Seq<u32>, m: int)
    requires
        0 <= m,
    ensures
        count_lt(ids, m, 0) == 0,
    decreases m,
{
    if m > 0 {
        lemma_count_lt_zero(ids, m - 1);
    }
}

proof fn lemma_count_lt_all(ids: Seq<u32>, m: int, k: int)
    requires
        0 <= m <= ids.len(),
        forall|r: int| 0 <= r < m ==> (ids[r] as int) < k,
    ensures
        count_lt(ids, m, k) == m,
    decreases m,
{
    if m > 0 {
        lemma_count_lt_all(ids, m - 1, k);
    }
}

/// `count_eq` and `count_lt` grow with the prefix length.
proof fn lemma_counts_monotone(ids: Seq<u32>, m1: int, m2: int, s: int)
    requires
        0 <= m1 <= m2,
    ensures
        count_eq(ids, m1, s) <= count_eq(ids, m2, s),
        count_lt(ids, m1, s) <= count_lt(ids, m2, s),
    decreases m2 - m1,
{
    if m1 < m2 {
        lemma_counts_monotone(ids, m1, m2 - 1, s);
    }
}

/// `count_lt` grows with the bound.
proof fn lemma_count_lt_monotone(ids: Seq<u32>, m: int, s1: int, s2: int)
    requires
        0 <= m,
        s1 <= s2,
    ensures
        count_lt(ids, m, s1) <= count_lt(ids, m, s2),
    decreases s2 - s1,
{
    if s1 < s2 {
        lemma_count_lt_monotone(ids, m, s1, s2 - 1);
        lemma_count_lt_step(ids, m, s2 - 1);
    }
}

/// Two positions with the same id are ordered as their counts of earlier
/// positions with that id.
proof fn lemma_count_eq_strict(ids: Seq<u32>, r1: int, r2: int)
    requires
        0 <= r1 < r2 <= ids.len(),
        ids[r1] == ids[r2 - 1] || true,
    ensures
        count_eq(ids, r1, ids[r1] as int) < count_eq(ids, r2, ids[r1] as int),
{
    lemma_counts_monotone(ids, r1 + 1, r2, ids[r1] as int);
}

/// Every count below the total is the count of earlier equal ids at some
/// position holding that id.
proof fn lemma_count_eq_witness(ids: Seq<u32>, m: int, s: int, j: int)
    requires
        0 <= m <= ids.len(),
        0 <= j < count_eq(ids, m, s),
    ensures
        exists|r: int| 0 <= r < m && ids[r] as int == s && count_eq(ids, r, s) == j,
    decreases m,
{
    if m > 0 {
        if j < count_eq(ids, m - 1, s) {
            lemma_count_eq_witness(ids, m - 1, s, j);
        } else {
            assert(ids[m - 1] as int == s && count_eq(ids, m - 1, s) == j);
        }
    }
}

/// The block holding position `p`: some `s < k` with
/// `count_lt(s) <= p < count_lt(s + 1)`.
proof fn lemma_find_block(ids: Seq<u32>, k: int, p: int) -> (s: int)
    requires
        0 <= p < ids.len(),
        0 <= k,
        forall|r: int| 0 <= r < ids.len() ==> (ids[r] as int) < k,
    ensures
        0 <= s < k,
        count_lt(ids, ids.len() as int, s) <= p < count_lt(ids, ids.len() as int, s + 1),
    decreases k,
{
    let n = ids.len() as int;
    lemma_count_lt_all(ids, n, k);
    lemma_count_lt_zero(ids, n);
    let mut s: int = k - 1;
    lemma_find_block_from(ids, k, p, k)
}

proof fn lemma_find_block_from(ids: Seq<u32>, k: int, p: int, t: int) -> (s: int)
    requires
        0 <= p < ids.len(),
        0 < t <= k,
        count_lt(ids, ids.len() as int, 0) == 0,
        p < count_lt(ids, ids.len() as int, t),
    ensures
        0 <= s < t,
        count_lt(ids, ids.len() as int, s) <= p < count_lt(ids, ids.len() as int, s + 1),
    decreases t,
{
    let n = ids.len() as int;
    if count_lt(ids, n, t - 1) <= p {
        t - 1
    } else {
        lemma_find_block_from(ids, k, p, t - 1)
    }
}

/// Slots lie below the number of positions.
proof fn lemma_slot_in_range(ids: Seq<u32>, k: int, q: int)
    requires
        0 <= q < ids.len(),
        forall|r: int| 0 <= r < ids.len() ==> (#[trigger] ids[r] as int) < k,
    ensures
        0 <= slot_of(ids, q) < ids.len(),
        slot_of(ids, q) < count_lt(ids, ids.len() as int, ids[q] as int + 1),
{
    let n = ids.len() as int;
    let e = ids[q] as int;
    lemma_count_eq_strict(ids, q, n);
    lemma_count_lt_step(ids, n, e);
    lemma_count_lt_monotone(ids, n, e + 1, k);
    lemma_count_lt_all(ids, n, k);
}

/// Distinct positions get distinct slots.
proof fn lemma_slots_distinct(ids: Seq<u32>, k: int, q: int, r: int)
    requires
        0 <= q < r < ids.len(),
        forall|t: int| 0 <= t < ids.len() ==> (#[trigger] ids[t] as int) < k,
    ensures
        slot_of(ids, q) != slot_of(ids, r),
        0 <= slot_of(ids, q) < ids.len(),
        0 <= slot_of(ids, r) < ids.len(),
{
    let n = ids.len() as int;
    let e = ids[q] as int;
    let d = ids[r] as int;
    lemma_slot_in_range(ids, k, q);
    lemma_slot_in_range(ids, k, r);
    if e == d {
        lemma_count_eq_strict(ids, q, r);
    } else if e < d {
        lemma_count_lt_monotone(ids, n, e + 1, d);
    } else {
        lemma_count_lt_monotone(ids, n, d + 1, e);
    }
}

/// Every slot below the number of positions is the slot of some position.
proof fn lemma_slots_onto(ids: Seq<u32>, k: int)
    requires
        0 <= k,
        forall|r: int| 0 <= r < ids.len() ==> (#[trigger] ids[r] as int) < k,
    ensures
        forall|p: int| 0 <= p < ids.len() ==> #[trigger] slot_taken(ids, p),
{
    let n = ids.len() as int;
    lemma_count_lt_zero(ids, n);
    lemma_count_lt_all(ids, n, k);
    assert forall|p: int| 0 <= p < n implies #[trigger] slot_taken(ids, p) by {
        let b = lemma_find_block(ids, k, p);
        lemma_count_lt_step(ids, n, b);
        lemma_count_eq_witness(ids, n, b, p - count_lt(ids, n, b));
        let q = choose|q: int| 0 <= q < n && ids[q] as int == b && count_eq(ids, q, b) == p - count_lt(ids, n, b);
        assert(slot_of(ids, q) == p);
    }
}

/// In a sequence holding every position at its slot, the position at slot `p`
/// has slot `p`.
proof fn lemma_rows_at_slots(rows: Seq<u32>, ids: Seq<u32>, k: int)
    requires
        0 <= k,
        rows.len() == ids.len(),
        forall|r: int| 0 <= r < ids.len() ==> (#[trigger] ids[r] as int) < k,
        forall|q: int| 0 <= q < ids.len() ==> rows[#[trigger] slot_of(ids, q)] == q,
    ensures
        forall|p: int| 0 <= p < ids.len() ==> (#[trigger] rows[p] as int) < ids.len()
            && slot_of(ids, rows[p] as int) == p,
{
    lemma_slots_onto(ids, k);
    let n = ids.len() as int;
    assert forall|p: int| 0 <= p < n implies (#[trigger] rows[p] as int) < n
        && slot_of(ids, rows[p] as int) == p by {
        assert(slot_taken(ids, p));
        let q = choose|q: int| 0 <= q < n && #[trigger] slot_of(ids, q) == p;
        assert(rows[slot_of(ids, q)] == q);
    }
}

/// Within one block, positions at later slots are later positions.
proof fn lemma_block_order(ids: Seq<u32>, k: int, rp: int, rq: int)
    requires
        0 <= k,
        0 <= rp < ids.len(),
        0 <= rq < ids.len(),
        ids[rp] == ids[rq],
        slot_of(ids, rp) < slot_of(ids, rq),
    ensures
        rp < rq,
{
    if rq <= rp {
        lemma_counts_monotone(ids, rq, rp, ids[rp] as int);
    }
}

/// A position whose slot lies in block `b` has id `b`.
proof fn lemma_block_id(ids: Seq<u32>, k: int, q: int, b: int)
    requires
        0 <= b < k,
        0 <= q < ids.len(),
        forall|r: int| 0 <= r < ids.len() ==> (#[trigger] ids[r] as int) < k,
        count_lt(ids, ids.len() as int, b) <= slot_of(ids, q) < count_lt(ids, ids.len() as int, b + 1),
    ensures
        ids[q] == b,
{
    let n = ids.len() as int;
    let e = ids[q] as int;
    lemma_slot_in_range(ids, k, q);
    if e < b {
        lemma_count_lt_monotone(ids, n, e + 1, b);
    } else if e > b {
        lemma_count_lt_monotone(ids, n, b + 1, e);
    }
}

/// The position at slot `p` of block `b` has id `b`.
proof fn lemma_block_member(rows: Seq<u32>, ids: Seq<u32>, k: int, b: int, p: int)
    requires
        0 <= b < k,
        rows.len() == ids.len(),
        forall|r: int| 0 <= r < ids.len() ==> (#[trigger] ids[r] as int) < k,
        forall|p: int| 0 <= p < ids.len() ==> (#[trigger] rows[p] as int) < ids.len()
            && slot_of(ids, rows[p] as int) == p,
        count_lt(ids, ids.len() as int, b) <= p < count_lt(ids, ids.len() as int, b + 1),
    ensures
        0 <= p < ids.len(),
        ids[rows[p] as int] == b,
{
    let n = ids.len() as int;
    lemma_count_lt_monotone(ids, n, b + 1, k);
    lemma_count_lt_all(ids, n, k);
    lemma_block_id(ids, k, rows[p] as int, b);
}

/// A sequence holding every position at its slot groups the positions by id.
proof fn lemma_slots_group(starts: Seq<u32>, rows: Seq<u32>, ids: Seq<u32>, k: int)
    requires
        0 <= k,
        rows.len() == ids.len(),
        starts.len() == k + 1,
        forall|r: int| 0 <= r < ids.len() ==> (#[trigger] ids[r] as int) < k,
        forall|t: int| 0 <= t <= k ==> #[trigger] starts[t] == count_lt(ids, ids.len() as int, t),
        forall|q: int| 0 <= q < ids.len() ==> rows[#[trigger] slot_of(ids, q)] == q,
    ensures
        groups_by_id(starts, rows, ids, k as nat),
{
    let n = ids.len() as int;
    lemma_count_lt_zero(ids, n);
    lemma_count_lt_all(ids, n, k);
    lemma_rows_at_slots(rows, ids, k);
    assert forall|t: int| 0 <= t < k implies #[trigger] starts[t] <= starts[t + 1] by {
        lemma_count_lt_monotone(ids, n, t, t + 1);
    }
    assert forall|p: int, q: int| 0 <= p < n && 0 <= q < n && p != q implies #[trigger] rows[p] != #[trigger] rows[q] by {
        assert(slot_of(ids, rows[p] as int) == p);
        assert(slot_of(ids, rows[q] as int) == q);
    }
    assert forall|b: int, p: int|
        #![trigger starts[b], rows[p]]
        0 <= b < k && starts[b] <= p < starts[b + 1] implies ids[rows[p] as int] == b by {
        lemma_block_member(rows, ids, k, b, p);
    }
    assert forall|b: int, p: int, q: int|
        #![trigger starts[b], rows[p], rows[q]]
        0 <= b < k && starts[b] <= p < q < starts[b + 1] implies rows[p] < rows[q] by {
        lemma_block_member(rows, ids, k, b, p);
        lemma_block_member(rows, ids, k, b, q);
        lemma_block_order(ids, k, rows[p] as int, rows[q] as int);
    }
}

/// Groups the positions `0..ids.len()` by their id (each below `k`), keeping
/// positions with equal ids in increasing order (a stable counting sort).
/// Returns the block starts (`k + 1` entries) and the grouped positions.
pub fn group_by_id(ids: &Vec<u32>, k: usize) -> (res: (Vec<u32>, Vec<u32>))
    requires
        ids@.len() <= u32::MAX,
        k < usize::MAX,
        forall|r: int| 0 <= r < ids@.len() ==> (#[trigger] ids@[r] as int) < k,
    ensures
        groups_by_id(res.0@, res.1@, ids@, k as nat),
{
    let n = ids.len();
    let ghost sids = ids@;
    // Pass 1: histogram of ids, shifted by one.
    let mut starts: Vec<u32> = vec![0u32; k + 1];
    let mut r: usize = 0;
    while r < n
        invariant
            n == sids.len(),
            sids == ids@,
            n <= u32::MAX,
            r <= n,
            starts@.len() == k + 1,
            forall|q: int| 0 <= q < n ==> (#[trigger] sids[q] as int) < k,
            starts@[0] == 0,
            forall|t: int| 1 <= t <= k ==> #[trigger] starts@[t] == count_eq(sids, r as int, t - 1),
        decreases n - r,
    {
        let d = ids[r] as usize;
        proof {
            lemma_counts_bounded(sids, r as int, d as int);
        }
        let c = starts[d + 1];
        starts.set(d + 1, c + 1);
        r += 1;
    }
    // Pass 2: prefix sums, so that starts[s] counts the ids below s.
    proof {
        lemma_count_lt_zero(sids, n as int);
    }
    let mut s: usize = 0;
    while s < k
        invariant
            n == sids.len(),
            n <= u32::MAX,
            s <= k,
            starts@.len() == k + 1,
            forall|t: int| 0 <= t <= s ==> #[trigger] starts@[t] == count_lt(sids, n as int, t),
            forall|t: int| s < t <= k ==> #[trigger] starts@[t] == count_eq(sids, n as int, t - 1),
        decreases k - s,
    {
        proof {
            if s == 0 {
                lemma_count_lt_zero(sids, n as int);
            }
            lemma_count_lt_step(sids, n as int, s as int);
            lemma_counts_bounded(sids, n as int, s as int + 1);
        }
        let a = starts[s];
        let b = starts[s + 1];
        starts.set(s + 1, a + b);
        s += 1;
    }
    // Pass 3: place every position at its block's cursor.
    let ghost fstarts = starts@;
    let mut cursor: Vec<u32> = starts.clone();
    proof {
        assert(cursor@ =~= fstarts);
    }
    let mut rows: Vec<u32> = vec![0u32; n];
    let mut r: usize = 0;
    while r < n
        invariant
            n == sids.len(),
            sids == ids@,
            n <= u32::MAX,
            r <= n,
            rows@.len() == n,
            cursor@.len() == k + 1,
            fstarts.len() == k + 1,
            forall|q: int| 0 <= q < n ==> (#[trigger] sids[q] as int) < k,
            forall|t: int| 0 <= t <= k ==> #[trigger] fstarts[t] == count_lt(sids, n as int, t),
            forall|t: int| 0 <= t < k ==> #[trigger] cursor@[t] == fstarts[t] + count_eq(sids, r as int, t),
            forall|q: int| 0 <= q < r ==> rows@[#[trigger] slot_of(sids, q)] == q,
        decreases n - r,
    {
        let d = ids[r] as usize;
        proof {
            lemma_slot_in_range(sids, k as int, r as int);
        }
        let slot = cursor[d] as usize;
        assert(slot == slot_of(sids, r as int));
        let ghost old_rows = rows@;
        rows.set(slot, r as u32);
        cursor.set(d, cursor[d] + 1);
        proof {
            assert forall|q: int| 0 <= q < r + 1 implies rows@[#[trigger] slot_of(sids, q)] == q by {
                if q < r {
                    lemma_slots_distinct(sids, k as int, q, r as int);
                    assert(rows@[slot_of(sids, q)] == old_rows[slot_of(sids, q)]);
                }
            }
        }
        r += 1;
    }
    proof {
        lemma_slots_group(starts@, rows@, sids, k as int);
    }
    (starts, rows)
}

} // verus!
