//! The budget-bounded cache of stratum partitions of a dataset, keyed by the
//! (order-insensitive) conditioning set.
//!
//! Partitions are cached until the byte budget is reached; further
//! conditioning sets are computed on the fly without caching (monotone — no
//! eviction).

use std::sync::Arc;

use vstd::prelude::*;
use vstd::relations::{sorted_by, total_ordering};

use crate::dataset::{discrete_error_detail, Column, Dataset};
use crate::error::{error_detail, CiError};
use crate::strata::{build_strata_partition, lemma_groups_unique, row_tuple, row_tuples, z_columns_fit, StrataPartition};

verus! {

broadcast use vstd::seq_lib::group_to_multiset_ensures;

/// Total byte budget for cached stratum partitions: 256 MiB.
pub const MAX_STRATA_CACHE_BYTES: usize = 256 << 20;

/// `a <= b`, the order conditioning sets are sorted by.
pub open spec fn index_leq(a: usize, b: usize) -> bool {
    a <= b
}

/// The order conditioning sets are sorted by, as a relation.
pub open spec fn index_order() -> spec_fn(usize, usize) -> bool {
    |a: usize, b: usize| index_leq(a, b)
}

/// The cache key of a conditioning set: its indices in increasing order.
pub open spec fn sorted_key(z: Seq<usize>) -> Seq<usize> {
    z.sort_by(index_order())
}

/// Every key is a list of discrete columns of `data`.
pub open spec fn key_is_discrete(data: &Dataset, key: Seq<usize>) -> bool {
    forall|j: int| 0 <= j < key.len() ==> (#[trigger] key[j]) < data.n_cols_spec() && data.column_spec(key[j] as int) is Discrete
}

/// Every cached key lists discrete columns of `data`, and its partition
/// groups the rows of `data` by those columns.
pub open spec fn cache_valid_for(cache: &StrataCacheInner, data: &Dataset) -> bool {
    forall|i: int| 0 <= i < cache.keys().len() ==> key_is_discrete(data, #[trigger] cache.keys()[i])
        && cache.partition_at(i).groups(dataset_tuples(data, cache.keys()[i]))
}

proof fn lemma_index_order_total()
    ensures
        total_ordering(index_order()),
{
}

/// The cache key holds exactly the indices of the conditioning set.
pub proof fn lemma_sorted_key_contains(z: Seq<usize>)
    ensures
        sorted_key(z).to_multiset() == z.to_multiset(),
        forall|c: usize| sorted_key(z).contains(c) <==> z.contains(c),
        sorted_by(sorted_key(z), index_order()),
{
    z.lemma_sort_by_ensures(index_order());
    assert forall|c: usize| sorted_key(z).contains(c) <==> z.contains(c) by {
        assert(sorted_key(z).to_multiset().count(c) == z.to_multiset().count(c));
    }
}

/// Two listings of the same conditioning columns (the same indices, in any
/// order) have the same cache key.
pub proof fn lemma_sorted_key_order_insensitive(z1: Seq<usize>, z2: Seq<usize>)
    requires
        z1.to_multiset() == z2.to_multiset(),
    ensures
        sorted_key(z1) == sorted_key(z2),
{
    lemma_sorted_key_contains(z1);
    lemma_sorted_key_contains(z2);
    lemma_index_order_total();
    vstd::seq_lib::lemma_sorted_unique(sorted_key(z1), sorted_key(z2), index_order());
}

/// The stratum partition of a conditioning set does not depend on the order
/// in which its columns are listed: partitions that group the rows of `data`
/// by two listings of the same indices are identical.
pub proof fn lemma_strata_order_insensitive(
    data: &Dataset,
    z1: Seq<usize>,
    z2: Seq<usize>,
    p1: &StrataPartition,
    p2: &StrataPartition,
)
    requires
        z1.to_multiset() == z2.to_multiset(),
        p1.groups(dataset_tuples(data, sorted_key(z1))),
        p2.groups(dataset_tuples(data, sorted_key(z2))),
    ensures
        p1.starts@ == p2.starts@,
        p1.rows@ == p2.rows@,
{
    lemma_sorted_key_order_insensitive(z1, z2);
    lemma_groups_unique(p1, p2, dataset_tuples(data, sorted_key(z1)));
}

/// When the columns of a sorted key fail the discrete check first at
/// position `j`, the kind of that failure decides which error the whole
/// conditioning set gets: out-of-range indices sort after every column.
proof fn lemma_first_failing_column(data: &Dataset, z: Seq<usize>, key: Seq<usize>, j: int)
    requires
        key == sorted_key(z),
        0 <= j < key.len(),
        forall|i: int| 0 <= i < j ==> (#[trigger] key[i]) < data.n_cols_spec() && data.column_spec(key[i] as int) is Discrete,
    ensures
        is_continuous_column(data, key[j]) ==> exists|c: usize| z.contains(c) && is_continuous_column(data, c),
        key[j] >= data.n_cols_spec() ==> !(exists|c: usize| z.contains(c) && is_continuous_column(data, c)),
        key[j] >= data.n_cols_spec() ==> exists|c: usize| z.contains(c) && c >= data.n_cols_spec(),
        z.contains(key[j]),
        forall|c: usize| z.contains(c) && c < key[j] ==> is_discrete_column(data, c),
{
    lemma_sorted_key_contains(z);
    assert(key.contains(key[j]));
    assert(z.contains(key[j]));
    assert forall|c: usize| z.contains(c) && c < key[j] implies is_discrete_column(data, c) by {
        assert(key.contains(c));
        let i = choose|i: int| 0 <= i < key.len() && key[i] == c;
        if i >= j {
            if i > j {
                assert(index_order()(key[j], key[i]));
            }
        }
    }
    if key[j] >= data.n_cols_spec() {
        assert forall|c: usize| z.contains(c) implies !is_continuous_column(data, c) by {
            assert(key.contains(c));
            let i = choose|i: int| 0 <= i < key.len() && key[i] == c;
            if i > j {
                assert(index_order()(key[j], key[i]));
            }
        }
    }
}

/// The indices of `z` in increasing order.
fn sort_indices(z: &[usize]) -> (res: Vec<usize>)
    ensures
        res@ == sorted_key(z@),
{
    let mut v: Vec<usize> = Vec::with_capacity(z.len());
    let mut i: usize = 0;
    while i < z.len()
        invariant
            i <= z@.len(),
            sorted_by(v@, index_order()),
            v@.to_multiset() == z@.take(i as int).to_multiset(),
        decreases z.len() - i,
    {
        let x = z[i];
        let mut pos: usize = 0;
        while pos < v.len() && v[pos] <= x
            invariant
                pos <= v@.len(),
                forall|j: int| 0 <= j < pos ==> v@[j] <= x,
            decreases v.len() - pos,
        {
            pos += 1;
        }
        let ghost before = v@;
        v.insert(pos, x);
        proof {
            assert(v@ == before.insert(pos as int, x));
            assert forall|a: int, b: int| 0 <= a < b < v@.len() implies #[trigger] index_order()(v@[a], v@[b]) by {
                if pos < before.len() {
                    assert(before[pos as int] > x);
                    if b > pos {
                        assert(index_order()(before[pos as int], before[b - 1]) || pos as int == b - 1);
                    }
                }
                if a < pos && b > pos {
                    assert(index_order()(before[a], before[b - 1]));
                } else if a > pos {
                    assert(index_order()(before[a - 1], before[b - 1]));
                } else if b < pos {
                    assert(index_order()(before[a], before[b]));
                }
            }
            assert(z@.take(i as int + 1) =~= z@.take(i as int).push(x));
        }
        i += 1;
    }
    proof {
        assert(z@.take(z@.len() as int) =~= z@);
        lemma_sorted_key_contains(z@);
        lemma_index_order_total();
        vstd::seq_lib::lemma_sorted_unique(v@, sorted_key(z@), index_order());
    }
    v
}

/// The bytes a cached partition is charged: four per stored `u32`.
pub open spec fn partition_bytes(p: StrataPartition) -> int {
    (4 * (p.starts@.len() + p.rows@.len())) as int
}

/// Bytes charged for a list of cache entries.
pub open spec fn entries_bytes(e: Seq<(Vec<usize>, Arc<StrataPartition>)>) -> int
    decreases e.len(),
{
    if e.len() == 0 {
        0
    } else {
        entries_bytes(e.drop_last()) + partition_bytes(*e.last().1)
    }
}

/// The codes of a discrete column (empty for a continuous one).
pub open spec fn discrete_codes(c: Column) -> Seq<usize> {
    match c {
        Column::Discrete { codes, .. } => codes@,
        Column::Continuous { .. } => Seq::empty(),
    }
}

/// The conditioning tuples of the rows of `data` for the columns `key`.
pub open spec fn dataset_tuples(data: &Dataset, key: Seq<usize>) -> Seq<Seq<usize>> {
    Seq::new(
        data.n_rows_spec(),
        |r: int| Seq::new(key.len(), |j: int| discrete_codes(data.column_spec(key[j] as int))[r]),
    )
}

/// Column `c` of `data` exists and is continuous.
pub open spec fn is_continuous_column(data: &Dataset, c: usize) -> bool {
    c < data.n_cols_spec() && data.column_spec(c as int) is Continuous
}

/// Column `c` of `data` exists and is discrete.
pub open spec fn is_discrete_column(data: &Dataset, c: usize) -> bool {
    c < data.n_cols_spec() && data.column_spec(c as int) is Discrete
}

/// Keyed cache of stratum partitions plus its current byte footprint.
#[derive(Debug)]
pub struct StrataCacheInner {
    entries: Vec<(Vec<usize>, Arc<StrataPartition>)>,
    bytes: usize,
}

/// Shares a cached partition (std's `Arc::clone`): the result points to the
/// same partition.
#[verifier::external_body]
fn share(p: &Arc<StrataPartition>) -> (res: Arc<StrataPartition>)
    ensures
        *res == **p,
{
    Arc::clone(p)
}

/// Whether a stored key equals a queried one.
fn same_key(a: &Vec<usize>, b: &[usize]) -> (res: bool)
    ensures
        res == (a@ == b@),
{
    if a.len() != b.len() {
        return false;
    }
    let mut i: usize = 0;
    while i < a.len()
        invariant
            i <= a@.len(),
            a@.len() == b@.len(),
            forall|j: int| 0 <= j < i ==> a@[j] == b@[j],
        decreases a.len() - i,
    {
        if a[i] != b[i] {
            return false;
        }
        i += 1;
    }
    proof {
        assert(a@ =~= b@);
    }
    true
}

impl StrataCacheInner {
    /// The cached keys, in insertion order.
    pub closed spec fn keys(&self) -> Seq<Seq<usize>> {
        Seq::new(self.entries@.len(), |i: int| self.entries@[i].0@)
    }

    /// The partition cached under the `i`-th key.
    pub closed spec fn partition_at(&self, i: int) -> StrataPartition {
        *self.entries@[i].1
    }

    /// The bytes charged so far.
    pub closed spec fn bytes_spec(&self) -> nat {
        self.bytes as nat
    }

    /// The charge equals the bytes of the cached partitions, and no key is
    /// cached twice.
    pub closed spec fn wf(&self) -> bool {
        &&& self.bytes == entries_bytes(self.entries@)
        &&& self.keys().no_duplicates()
    }

    /// An empty cache.
    pub fn new() -> (res: Self)
        ensures
            res.wf(),
            res.keys().len() == 0,
            res.bytes_spec() == 0,
    {
        StrataCacheInner { entries: Vec::new(), bytes: 0 }
    }

    /// The bytes charged for the cached partitions.
    pub fn bytes(&self) -> (res: usize)
        ensures
            res == self.bytes_spec(),
    {
        self.bytes
    }

    /// Whether `key` is cached.
    pub fn contains_key(&self, key: &[usize]) -> (res: bool)
        ensures
            res == self.keys().contains(key@),
    {
        self.position(key).is_some()
    }

    /// Position of `key` among the cached keys.
    fn position(&self, key: &[usize]) -> (res: Option<usize>)
        ensures
            match res {
                Some(i) => i < self.keys().len() && self.keys()[i as int] == key@,
                None => !self.keys().contains(key@),
            },
    {
        let mut i: usize = 0;
        while i < self.entries.len()
            invariant
                i <= self.entries@.len(),
                forall|j: int| 0 <= j < i ==> self.keys()[j] != key@,
            decreases self.entries.len() - i,
        {
            if same_key(&self.entries[i].0, key) {
                return Some(i);
            }
            i += 1;
        }
        proof {
            if self.keys().contains(key@) {
                let j = choose|j: int| 0 <= j < self.keys().len() && self.keys()[j] == key@;
            }
        }
        None
    }

    /// The partition cached under `key`, if any.
    pub fn get(&self, key: &[usize]) -> (res: Option<Arc<StrataPartition>>)
        ensures
            match res {
                Some(p) => exists|i: int| 0 <= i < self.keys().len() && self.keys()[i] == key@ && *p == self.partition_at(i),
                None => !self.keys().contains(key@),
            },
    {
        match self.position(key) {
            Some(i) => {
                let p = share(&self.entries[i].1);
                proof {
                    assert(*p == self.partition_at(i as int));
                }
                Some(p)
            },
            None => None,
        }
    }

    /// Insert `partition` under `key` iff it fits in `budget`; returns
    /// whether it was cached. `key` must not be cached yet.
    pub fn insert_within_budget(&mut self, key: Vec<usize>, partition: &Arc<StrataPartition>, budget: usize) -> (res: bool)
        requires
            old(self).wf(),
            !old(self).keys().contains(key@),
            partition_bytes(**partition) <= usize::MAX,
        ensures
            final(self).wf(),
            res == (old(self).bytes_spec() + partition_bytes(**partition) <= budget),
            res ==> final(self).keys() == old(self).keys().push(key@),
            res ==> final(self).bytes_spec() == old(self).bytes_spec() + partition_bytes(**partition),
            res ==> final(self).partition_at(old(self).keys().len() as int) == **partition,
            res ==> forall|i: int| 0 <= i < old(self).keys().len() ==> #[trigger] final(self).partition_at(i) == old(self).partition_at(i),
            !res ==> final(self).keys() == old(self).keys() && final(self).bytes_spec() == old(self).bytes_spec()
                && forall|i: int| 0 <= i < old(self).keys().len() ==> #[trigger] final(self).partition_at(i) == old(self).partition_at(i),
    {
        let size = partition.approx_bytes();
        if size > budget || self.bytes > budget - size {
            return false;
        }
        let ghost old_entries = self.entries@;
        let ghost old_keys = self.keys();
        let shared = share(partition);
        let ghost entry = (key, shared);
        self.entries.push((key, shared));
        self.bytes = self.bytes + size;
        proof {
            assert(self.entries@.drop_last() =~= old_entries);
            assert(self.keys() =~= old_keys.push(entry.0@));
            assert forall|i: int, j: int| 0 <= i < self.keys().len() && 0 <= j < self.keys().len() && i != j
                implies self.keys()[i] != self.keys()[j] by {
                if i == old_keys.len() {
                    assert(!old_keys.contains(self.keys()[i]));
                    assert(self.keys()[j] == old_keys[j]);
                } else if j == old_keys.len() {
                    assert(!old_keys.contains(self.keys()[j]));
                    assert(self.keys()[i] == old_keys[i]);
                } else {
                    assert(self.keys()[i] == old_keys[i]);
                    assert(self.keys()[j] == old_keys[j]);
                }
            }
        }
        true
    }
}

impl Default for StrataCacheInner {
    fn default() -> (res: Self)
        ensures
            res.wf(),
            res.keys().len() == 0,
            res.bytes_spec() == 0,
    {
        Self::new()
    }
}

impl StrataCacheInner {
    /// The stratum partition of the rows of `data` for conditioning set `z`,
    /// cached per distinct (order-insensitive) set of column indices. On a
    /// miss the partition is built and cached only while the total charge
    /// stays within [`MAX_STRATA_CACHE_BYTES`]; once the budget is reached,
    /// further sets are computed per call without caching.
    ///
    /// Errors: [`CiError::WrongColumnKind`] if a column of `z` is
    /// continuous, otherwise [`CiError::UnknownColumn`] if one is out of
    /// range.
    #[verifier::loop_isolation(false)]
    #[verifier::rlimit(50)]
    pub fn strata_partition(&mut self, data: &Dataset, z: &[usize]) -> (res: Result<Arc<StrataPartition>, CiError>)
        requires
            old(self).wf(),
            cache_valid_for(old(self), data),
            data.n_rows_spec() < u32::MAX,
        ensures
            final(self).wf(),
            cache_valid_for(final(self), data),
            (exists|c: usize| z@.contains(c) && is_continuous_column(data, c))
                <==> res matches Err(CiError::WrongColumnKind(_)),
            (!(exists|c: usize| z@.contains(c) && is_continuous_column(data, c))
                && exists|c: usize| z@.contains(c) && c >= data.n_cols_spec())
                <==> res matches Err(CiError::UnknownColumn(_)),
            res matches Ok(p) ==> p.groups(dataset_tuples(data, sorted_key(z@))),
            res matches Err(e) ==> exists|c: usize|
                z@.contains(c) && !is_discrete_column(data, c) && (forall|c2: usize|
                    z@.contains(c2) && c2 < c ==> is_discrete_column(data, c2)) && error_detail(e)
                    == discrete_error_detail(data.n_cols_spec(), c),
            final(self).keys().len() >= old(self).keys().len(),
            forall|i: int| 0 <= i < old(self).keys().len() ==> #[trigger] final(self).keys()[i] == old(self).keys()[i]
                && final(self).partition_at(i) == old(self).partition_at(i),
            old(self).bytes_spec() <= MAX_STRATA_CACHE_BYTES ==> final(self).bytes_spec() <= MAX_STRATA_CACHE_BYTES,
            old(self).keys().contains(sorted_key(z@)) || res is Err ==> final(self).keys() == old(self).keys()
                && final(self).bytes_spec() == old(self).bytes_spec(),
            old(self).keys().contains(sorted_key(z@)) ==> res is Ok,
            match res {
                Ok(p) => {
                    &&& old(self).keys().contains(sorted_key(z@)) ==> exists|i: int|
                        0 <= i < old(self).keys().len() && old(self).keys()[i] == sorted_key(z@) && *p
                            == #[trigger] old(self).partition_at(i)
                    &&& !old(self).keys().contains(sorted_key(z@)) ==> {
                        ||| final(self).keys() == old(self).keys() && final(self).bytes_spec() == old(self).bytes_spec()
                        ||| final(self).keys() == old(self).keys().push(sorted_key(z@)) && final(self).bytes_spec()
                            == old(self).bytes_spec() + partition_bytes(*p) && final(self).partition_at(
                            old(self).keys().len() as int,
                        ) == *p
                    }
                    &&& !old(self).keys().contains(sorted_key(z@)) && 8 * p.starts@.len() <= usize::MAX && 8
                        * p.rows@.len() <= usize::MAX ==> (final(self).keys().len() > old(self).keys().len()
                        <==> old(self).bytes_spec() + partition_bytes(*p) <= MAX_STRATA_CACHE_BYTES)
                },
                Err(_) => true,
            },
    {
        let key = sort_indices(z);
        proof {
            lemma_sorted_key_contains(z@);
        }
        if let Some(hit) = self.get(key.as_slice()) {
            proof {
                let i = choose|i: int| 0 <= i < self.keys().len() && self.keys()[i] == key@ && *hit == self.partition_at(i);
                assert(self.partition_at(i).groups(dataset_tuples(data, self.keys()[i])));
                assert(key_is_discrete(data, key@));
                assert forall|c: usize| z@.contains(c) implies !is_continuous_column(data, c) && c < data.n_cols_spec() by {
                    assert(key@.contains(c));
                    let j = choose|j: int| 0 <= j < key@.len() && key@[j] == c;
                }
            }
            return Ok(hit);
        }
        let n = data.n_rows();
        let mut z_columns: Vec<(&[usize], usize)> = Vec::with_capacity(key.len());
        let mut j: usize = 0;
        while j < key.len()
            invariant
                j <= key@.len(),
                key@ == sorted_key(z@),
                sorted_by(key@, index_order()),
                n == data.n_rows_spec(),
                z_columns@.len() == j,
                forall|i: int| 0 <= i < j ==> (#[trigger] z_columns@[i]).0@ == discrete_codes(data.column_spec(key@[i] as int)),
                forall|i: int| 0 <= i < j ==> (#[trigger] key@[i]) < data.n_cols_spec() && data.column_spec(key@[i] as int) is Discrete,
                z_columns_fit(z_columns@, n as nat),
            decreases key.len() - j,
        {
            match data.discrete(key[j]) {
                Ok((codes, card)) => {
                    z_columns.push((codes, card));
                },
                Err(e) => {
                    proof {
                        lemma_first_failing_column(data, z@, key@, j as int);
                        assert(!is_discrete_column(data, key@[j as int]));
                        if key@[j as int] >= data.n_cols_spec() {
                            assert(e is UnknownColumn);
                        } else {
                            assert(is_continuous_column(data, key@[j as int]));
                            assert(e is WrongColumnKind);
                        }
                    }
                    return Err(e);
                },
            }
            j += 1;
        }
        let built = build_strata_partition(z_columns.as_slice(), n);
        proof {
            assert(row_tuples(z_columns@, n as nat) =~= dataset_tuples(data, key@)) by {
                assert forall|r: int| 0 <= r < n implies #[trigger] row_tuples(z_columns@, n as nat)[r] == dataset_tuples(data, key@)[r] by {
                    assert(row_tuple(z_columns@, r) =~= dataset_tuples(data, key@)[r]);
                }
            }
            assert forall|c: usize| z@.contains(c) implies !is_continuous_column(data, c) && c < data.n_cols_spec() by {
                assert(key@.contains(c));
            }
        }
        let partition = Arc::new(built);
        if partition.starts.len() <= usize::MAX / 8 && partition.rows.len() <= usize::MAX / 8 {
            let ghost before = *self;
            let inserted = self.insert_within_budget(key, &partition, MAX_STRATA_CACHE_BYTES);
            proof {
                assert forall|i: int| 0 <= i < self.keys().len() implies (#[trigger] self.partition_at(i)).groups(dataset_tuples(data, self.keys()[i])) by {
                    if i < before.keys().len() {
                        assert(self.partition_at(i) == before.partition_at(i));
                        assert(self.keys()[i] == before.keys()[i]);
                    } else {
                        assert(key_is_discrete(data, key@));
                    }
                }
            }
        }
        Ok(partition)
    }
}

} // verus!
