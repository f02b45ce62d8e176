//! First-seen coding: the distinct keys of a sequence, in the order in which
//! they first occur, and the code (position in that order) of every key.
//!
//! Discrete columns are factorized with it, and the strata of a conditioning
//! set are numbered with it.

use std::collections::HashMap;

use vstd::prelude::*;

verus! {

broadcast use vstd::std_specs::hash::group_hash_axioms;

/// The distinct keys of `keys`, in the order of their first occurrence.
pub open spec fn first_seen<K>(keys: Seq<K>) -> Seq<K>
    decreases keys.len(),
{
    if keys.len() == 0 {
        Seq::empty()
    } else {
        let d = first_seen(keys.drop_last());
        if d.contains(keys.last()) {
            d
        } else {
            d.push(keys.last())
        }
    }
}

/// `codes` numbers `keys` in first-seen order: `card` distinct keys, and the
/// `codes[i]`-th of them (in first-seen order) is `keys[i]`.
pub open spec fn is_first_seen_coding<K>(keys: Seq<K>, codes: Seq<usize>, card: nat) -> bool {
    let d = first_seen(keys);
    &&& codes.len() == keys.len()
    &&& card == d.len()
    &&& forall|i: int| 0 <= i < keys.len() ==> (#[trigger] codes[i] as int) < card && d[codes[i] as int] == keys[i]
}

/// `ids` numbers `keys` in first-seen order (as `u32` ids): `card` distinct
/// keys, and the `ids[i]`-th of them (in first-seen order) is `keys[i]`.
pub open spec fn is_first_seen_ids<K>(keys: Seq<K>, ids: Seq<u32>, card: nat) -> bool {
    let d = first_seen(keys);
    &&& ids.len() == keys.len()
    &&& card == d.len()
    &&& forall|i: int| 0 <= i < keys.len() ==> (#[trigger] ids[i] as int) < card && d[ids[i] as int] == keys[i]
}

/// Mapping the keys by a function that is injective on them maps the
/// first-seen keys.
pub proof fn lemma_first_seen_map<A, B>(keys: Seq<A>, g: spec_fn(A) -> B)
    requires
        forall|i: int, j: int| 0 <= i < keys.len() && 0 <= j < keys.len() && g(keys[i]) == g(keys[j]) ==> keys[i] == keys[j],
    ensures
        first_seen(keys.map_values(g)) == first_seen(keys).map_values(g),
    decreases keys.len(),
{
    if keys.len() > 0 {
        let prev = keys.drop_last();
        assert(keys.map_values(g).drop_last() =~= prev.map_values(g));
        assert forall|i: int, j: int| 0 <= i < prev.len() && 0 <= j < prev.len() && g(prev[i]) == g(prev[j]) implies prev[i] == prev[j] by {
            assert(prev[i] == keys[i] && prev[j] == keys[j]);
        }
        lemma_first_seen_map(prev, g);
        lemma_first_seen(prev);
        let d = first_seen(prev);
        let k = keys.last();
        let dm = d.map_values(g);
        if d.contains(k) {
            let j = choose|j: int| 0 <= j < d.len() && d[j] == k;
            assert(dm[j] == g(k));
        } else {
            assert forall|j: int| 0 <= j < dm.len() implies dm[j] != g(k) by {
                assert(prev.contains(d[j]));
                let i = choose|i: int| 0 <= i < prev.len() && prev[i] == d[j];
                assert(keys[i] == d[j]);
                if g(d[j]) == g(k) {
                    assert(keys[keys.len() - 1] == k);
                }
            }
            assert(d.push(k).map_values(g) =~= dm.push(g(k)));
        }
    }
}

/// First-seen ids of keys mapped by a function injective on them are the
/// first-seen ids of the keys themselves.
pub proof fn lemma_ids_of_mapped_keys<A, B>(keys: Seq<A>, g: spec_fn(A) -> B, ids: Seq<u32>, card: nat)
    requires
        forall|i: int, j: int| 0 <= i < keys.len() && 0 <= j < keys.len() && g(keys[i]) == g(keys[j]) ==> keys[i] == keys[j],
        is_first_seen_ids(keys.map_values(g), ids, card),
    ensures
        is_first_seen_ids(keys, ids, card),
{
    lemma_first_seen_map(keys, g);
    lemma_first_seen(keys);
    let d = first_seen(keys);
    assert forall|i: int| 0 <= i < keys.len() implies (#[trigger] ids[i] as int) < card && d[ids[i] as int] == keys[i] by {
        let c = ids[i] as int;
        assert(keys.map_values(g)[i] == g(keys[i]));
        assert(d.map_values(g)[c] == g(d[c]));
        assert(keys.contains(d[c]));
        let j = choose|j: int| 0 <= j < keys.len() && keys[j] == d[c];
    }
}

/// The first-seen keys hold no key twice, hold every key of `keys`, and only
/// keys of `keys`.
pub proof fn lemma_first_seen<K>(keys: Seq<K>)
    ensures
        first_seen(keys).no_duplicates(),
        first_seen(keys).len() <= keys.len(),
        forall|i: int| 0 <= i < keys.len() ==> first_seen(keys).contains(#[trigger] keys[i]),
        forall|s: int| 0 <= s < first_seen(keys).len() ==> keys.contains(#[trigger] first_seen(keys)[s]),
    decreases keys.len(),
{
    if keys.len() > 0 {
        let prev = keys.drop_last();
        lemma_first_seen(prev);
        let d = first_seen(prev);
        assert forall|i: int| 0 <= i < keys.len() implies first_seen(keys).contains(#[trigger] keys[i]) by {
            if i < keys.len() - 1 {
                assert(prev[i] == keys[i]);
                assert(d.contains(prev[i]));
                if !d.contains(keys.last()) {
                    let j = choose|j: int| 0 <= j < d.len() && d[j] == prev[i];
                    assert(d.push(keys.last())[j] == keys[i]);
                }
            } else {
                if !d.contains(keys.last()) {
                    assert(d.push(keys.last())[d.len() as int] == keys[i]);
                }
            }
        }
        assert forall|s: int| 0 <= s < first_seen(keys).len() implies keys.contains(#[trigger] first_seen(keys)[s]) by {
            if s < d.len() {
                assert(prev.contains(d[s]));
                let j = choose|j: int| 0 <= j < prev.len() && prev[j] == d[s];
                assert(keys[j] == d[s]);
            } else {
                assert(keys[keys.len() - 1] == first_seen(keys)[s]);
            }
        }
    }
}

/// Extending the keys by one key extends the first-seen keys by that key
/// exactly when it had not occurred before.
pub proof fn lemma_first_seen_take<K>(keys: Seq<K>, i: int)
    requires
        0 <= i < keys.len(),
    ensures
        first_seen(keys.take(i + 1)) == (if first_seen(keys.take(i)).contains(keys[i]) {
            first_seen(keys.take(i))
        } else {
            first_seen(keys.take(i)).push(keys[i])
        }),
{
    assert(keys.take(i + 1).drop_last() =~= keys.take(i));
}

/// Some position holds code `c`.
pub open spec fn code_used(codes: Seq<usize>, c: int) -> bool {
    exists|i: int| 0 <= i < codes.len() && codes[i] == c
}

/// A first-seen coding gives two positions the same code exactly when they
/// hold the same key, and uses every code in `0..card`: the codes are
/// contiguous.
pub proof fn lemma_coding_identifies<K>(keys: Seq<K>, codes: Seq<usize>, card: nat)
    requires
        is_first_seen_coding(keys, codes, card),
    ensures
        forall|i: int, j: int|
            0 <= i < keys.len() && 0 <= j < keys.len() ==> (#[trigger] codes[i] == #[trigger] codes[j] <==> keys[i] == keys[j]),
        forall|c: int| 0 <= c < card ==> #[trigger] code_used(codes, c),
{
    let d = first_seen(keys);
    lemma_first_seen(keys);
    assert forall|i: int, j: int| 0 <= i < keys.len() && 0 <= j < keys.len() implies (#[trigger] codes[i]
        == #[trigger] codes[j] <==> keys[i] == keys[j]) by {
        if keys[i] == keys[j] {
            assert(d[codes[i] as int] == d[codes[j] as int]);
        }
    }
    assert forall|c: int| 0 <= c < card implies #[trigger] code_used(codes, c) by {
        assert(keys.contains(d[c]));
        let i = choose|i: int| 0 <= i < keys.len() && keys[i] == d[c];
        assert(d[codes[i] as int] == d[c]);
        assert(codes[i] == c);
    }
}

/// Two sequences without duplicates that hold the same elements have the
/// same multiset.
pub proof fn lemma_same_elements_same_multiset<A>(a: Seq<A>, b: Seq<A>)
    requires
        a.no_duplicates(),
        b.no_duplicates(),
        forall|k: A| a.contains(k) <==> b.contains(k),
    ensures
        a.to_multiset() == b.to_multiset(),
{
    broadcast use vstd::seq_lib::group_to_multiset_ensures;

    a.lemma_multiset_has_no_duplicates();
    b.lemma_multiset_has_no_duplicates();
    assert forall|k: A| a.to_multiset().count(k) == b.to_multiset().count(k) by {
        if a.contains(k) {
            assert(a.to_multiset().count(k) == 1);
            assert(b.to_multiset().count(k) == 1);
        }
    }
    assert(a.to_multiset() =~= b.to_multiset());
}

/// Numbers the keys in first-seen order: returns the per-key codes and the
/// number of distinct keys.
pub fn first_seen_codes(keys: &[u64]) -> (res: (Vec<usize>, usize))
    ensures
        is_first_seen_coding(keys@, res.0@, res.1 as nat),
{
    let mut lookup: HashMap<u64, usize> = HashMap::new();
    let mut codes: Vec<usize> = Vec::with_capacity(keys.len());
    let mut next: usize = 0;
    let ghost mut d: Seq<u64> = Seq::empty();
    let mut i: usize = 0;
    while i < keys.len()
        invariant
            i <= keys.len(),
            d == first_seen(keys@.take(i as int)),
            next == d.len(),
            d.no_duplicates(),
            codes@.len() == i,
            forall|k: u64| lookup@.contains_key(k) <==> d.contains(k),
            forall|k: u64| #[trigger] lookup@.contains_key(k) ==> lookup@[k] < d.len() && d[lookup@[k] as int] == k,
            forall|j: int| 0 <= j < i ==> (#[trigger] codes@[j] as int) < d.len() && d[codes@[j] as int] == keys@[j],
        decreases keys.len() - i,
    {
        proof {
            lemma_first_seen_take(keys@, i as int);
            lemma_first_seen(keys@.take(i as int + 1));
            lemma_first_seen(keys@.take(i as int));
        }
        let key = keys[i];
        let code: usize;
        match lookup.get(&key) {
            Some(c) => {
                code = *c;
            },
            None => {
                proof {
                    lemma_first_seen(keys@.take(i as int));
                    assert(d.len() <= i);
                }
                code = next;
                lookup.insert(key, next);
                proof {
                    let nd = d.push(key);
                    assert(nd[d.len() as int] == key);
                    assert forall|k: u64| #[trigger] lookup@.contains_key(k) implies lookup@[k] < nd.len() && nd[lookup@[k] as int] == k by {
                        if k != key {
                            assert(nd[lookup@[k] as int] == d[lookup@[k] as int]);
                        }
                    }
                    assert forall|k: u64| lookup@.contains_key(k) <==> nd.contains(k) by {
                        if nd.contains(k) && k != key {
                            let j = choose|j: int| 0 <= j < nd.len() && nd[j] == k;
                            assert(d[j] == k);
                        }
                        if d.contains(k) {
                            let j = choose|j: int| 0 <= j < d.len() && d[j] == k;
                            assert(nd[j] == k);
                        }
                    }
                    d = nd;
                }
                next = next + 1;
            },
        }
        codes.push(code);
        i += 1;
    }
    proof {
        assert(keys@.take(keys@.len() as int) =~= keys@);
    }
    (codes, next)
}

} // verus!
