//! A stable sort by pairs of keys, as a permutation of indices.
use std::collections::BTreeMap;

use vstd::prelude::*;

verus! {

broadcast use vstd::std_specs::btree::group_btree_axioms;

/// Lexicographic order on pairs.
pub open spec fn pair_lt(a: (int, int), b: (int, int)) -> bool {
    a.0 < b.0 || (a.0 == b.0 && a.1 < b.1)
}

/// `order` with index `i` put behind every index whose key is not above `keys[i]`.
pub open spec fn insert_index(keys: Seq<(int, int)>, order: Seq<int>, i: int) -> Seq<int>
    decreases order.len(),
{
    if order.len() > 0 && pair_lt(keys[i], keys[order.last()]) {
        insert_index(keys, order.drop_last(), i).push(order.last())
    } else {
        order.push(i)
    }
}

/// The first `n` indices of `keys` in ascending order of their keys, equal keys
/// keeping the order in which they stand.
pub open spec fn stable_order_of(keys: Seq<(int, int)>, n: nat) -> Seq<int>
    decreases n,
{
    if n == 0 {
        Seq::empty()
    } else {
        insert_index(keys, stable_order_of(keys, (n - 1) as nat), n - 1)
    }
}

/// The indices of `keys` in ascending order of their keys, ties in index order.
pub open spec fn stable_order(keys: Seq<(int, int)>) -> Seq<int> {
    stable_order_of(keys, keys.len())
}

/// Whether `order` lists indices by ascending key, ties by ascending index.
pub open spec fn is_ordered(keys: Seq<(int, int)>, order: Seq<int>) -> bool {
    forall|a: int, b: int| #![trigger order[a], order[b]]
        0 <= a < b < order.len() ==> !pair_lt(keys[order[b]], keys[order[a]]) && (keys[order[a]]
            == keys[order[b]] ==> order[a] < order[b])
}

/// Whether `order` lists each of `0..n` exactly once.
pub open spec fn is_permutation(order: Seq<int>, n: int) -> bool {
    &&& order.len() == n
    &&& forall|a: int| 0 <= a < n ==> 0 <= #[trigger] order[a] < n
    &&& order.no_duplicates()
    &&& forall|i: int| 0 <= i < n ==> #[trigger] order.contains(i)
}

/// Key pairs as mathematical integers.
pub open spec fn key_view(keys: Seq<(u64, u64)>) -> Seq<(int, int)> {
    Seq::new(keys.len(), |i: int| (keys[i].0 as int, keys[i].1 as int))
}

/// Index list as mathematical integers.
pub open spec fn index_view(order: Seq<usize>) -> Seq<int> {
    Seq::new(order.len(), |i: int| order[i] as int)
}

proof fn lemma_insert_index(keys: Seq<(int, int)>, order: Seq<int>, i: int)
    requires
        is_ordered(keys, order),
        forall|a: int| 0 <= a < order.len() ==> 0 <= #[trigger] order[a] < i,
        order.no_duplicates(),
    ensures
        insert_index(keys, order, i).len() == order.len() + 1,
        is_ordered(keys, insert_index(keys, order, i)),
        insert_index(keys, order, i).no_duplicates(),
        forall|x: int| #[trigger]
            insert_index(keys, order, i).contains(x) <==> x == i || order.contains(x),
    decreases order.len(),
{
    let out = insert_index(keys, order, i);
    if order.len() > 0 && pair_lt(keys[i], keys[order.last()]) {
        let rest = order.drop_last();
        assert forall|a: int, b: int| #![trigger rest[a], rest[b]] 0 <= a < b < rest.len() implies !pair_lt(
            keys[rest[b]],
            keys[rest[a]],
        ) && (keys[rest[a]] == keys[rest[b]] ==> rest[a] < rest[b]) by {
            assert(rest[a] == order[a] && rest[b] == order[b]);
        }
        lemma_insert_index(keys, rest, i);
        let inner = insert_index(keys, rest, i);
        assert(out == inner.push(order.last()));
        assert forall|x: int| #[trigger] out.contains(x) <==> x == i || order.contains(x) by {
            if out.contains(x) {
                let k = choose|k: int| 0 <= k < out.len() && out[k] == x;
                if k < inner.len() {
                    assert(inner.contains(inner[k]));
                    if x != i {
                        let m = choose|m: int| 0 <= m < rest.len() && rest[m] == x;
                        assert(order[m] == x);
                    }
                } else {
                    assert(order[order.len() - 1] == x);
                }
            }
            if x == i || order.contains(x) {
                if order.contains(x) && x == order.last() {
                    assert(out[out.len() - 1] == x);
                } else {
                    if order.contains(x) {
                        let m = choose|m: int| 0 <= m < order.len() && order[m] == x;
                        assert(rest[m] == x);
                    }
                    assert(inner.contains(x));
                    let k = choose|k: int| 0 <= k < inner.len() && inner[k] == x;
                    assert(out[k] == x);
                }
            }
        }
        assert forall|a: int, b: int| #![trigger out[a], out[b]] 0 <= a < b < out.len() implies !pair_lt(
            keys[out[b]],
            keys[out[a]],
        ) && (keys[out[a]] == keys[out[b]] ==> out[a] < out[b]) by {
            if b < inner.len() {
                assert(out[a] == inner[a] && out[b] == inner[b]);
            } else {
                assert(inner.contains(inner[a]));
                if out[a] != i {
                    let m = choose|m: int| 0 <= m < rest.len() && rest[m] == inner[a];
                    assert(order[m] == inner[a]);
                    assert(order[order.len() - 1] == out[b]);
                }
            }
        }
        assert forall|a: int, b: int| 0 <= a < out.len() && 0 <= b < out.len() && a != b implies out[a]
            != out[b] by {
            if a < inner.len() && b < inner.len() {
                assert(inner[a] != inner[b]);
            } else {
                let c = if a < inner.len() { a } else { b };
                assert(inner.contains(inner[c]));
                if inner[c] != i {
                    let m = choose|m: int| 0 <= m < rest.len() && rest[m] == inner[c];
                    assert(order[m] == inner[c]);
                }
            }
        }
    } else {
        assert(out == order.push(i));
        assert forall|x: int| #[trigger] out.contains(x) <==> x == i || order.contains(x) by {
            if out.contains(x) {
                let k = choose|k: int| 0 <= k < out.len() && out[k] == x;
                if k < order.len() {
                    assert(order[k] == x);
                }
            }
            if order.contains(x) {
                let k = choose|k: int| 0 <= k < order.len() && order[k] == x;
                assert(out[k] == x);
            }
            if x == i {
                assert(out[order.len() as int] == x);
            }
        }
        assert forall|a: int, b: int| #![trigger out[a], out[b]] 0 <= a < b < out.len() implies !pair_lt(
            keys[out[b]],
            keys[out[a]],
        ) && (keys[out[a]] == keys[out[b]] ==> out[a] < out[b]) by {
            if b < order.len() {
                assert(out[a] == order[a] && out[b] == order[b]);
            } else {
                assert(out[a] == order[a]);
                assert(order[order.len() - 1] == order.last());
                if a < order.len() - 1 {
                    assert(!pair_lt(keys[order.last()], keys[order[a]]));
                }
            }
        }
    }
}

proof fn lemma_stable_order_of(keys: Seq<(int, int)>, n: nat)
    requires
        n <= keys.len(),
    ensures
        is_ordered(keys, stable_order_of(keys, n)),
        is_permutation(stable_order_of(keys, n), n as int),
    decreases n,
{
    if n > 0 {
        lemma_stable_order_of(keys, (n - 1) as nat);
        let inner = stable_order_of(keys, (n - 1) as nat);
        lemma_insert_index(keys, inner, n - 1);
        let out = stable_order_of(keys, n);
        assert forall|a: int| 0 <= a < n implies 0 <= #[trigger] out[a] < n by {
            assert(out.contains(out[a]));
            if out[a] != n - 1 {
                let m = choose|m: int| 0 <= m < inner.len() && inner[m] == out[a];
            }
        }
    }
}

/// `stable_order` lists every index once, by ascending key, ties by index.
pub proof fn lemma_stable_order(keys: Seq<(int, int)>)
    ensures
        is_ordered(keys, stable_order(keys)),
        is_permutation(stable_order(keys), keys.len() as int),
{
    lemma_stable_order_of(keys, keys.len());
}

/// Sorts indices by key; see [`stable_order`].
pub fn sort_indices(keys: &Vec<(u64, u64)>) -> (order: Vec<usize>)
    ensures
        index_view(order@) == stable_order(key_view(keys@)),
{
    let ghost ks = key_view(keys@);
    let mut order: Vec<usize> = Vec::with_capacity(keys.len());
    let mut i: usize = 0;
    while i < keys.len()
        invariant
            ks == key_view(keys@),
            i <= keys.len(),
            index_view(order@) == stable_order_of(ks, i as nat),
            order.len() == i,
            forall|a: int| 0 <= a < order.len() ==> #[trigger] order[a] < i,
        decreases keys.len() - i,
    {
        let ghost before = order@;
        let mut at: usize = order.len();
        proof {
            assert(before.take(at as int) =~= before);
            assert(before.skip(at as int) =~= Seq::<usize>::empty());
            assert(insert_index(ks, index_view(before), i as int) =~= insert_index(
                ks,
                index_view(before.take(at as int)),
                i as int,
            ) + index_view(before.skip(at as int)));
        }
        while at > 0 && (keys[i].0 < keys[order[at - 1]].0 || (keys[i].0 == keys[order[at - 1]].0
            && keys[i].1 < keys[order[at - 1]].1))
            invariant
                ks == key_view(keys@),
                i < keys.len(),
                at <= order.len(),
                order@ == before,
                forall|a: int| 0 <= a < order.len() ==> #[trigger] order[a] < i,
                insert_index(ks, index_view(before), i as int) == insert_index(
                    ks,
                    index_view(before.take(at as int)),
                    i as int,
                ) + index_view(before.skip(at as int)),
            decreases at,
        {
            proof {
                let part = index_view(before.take(at as int));
                assert(part.drop_last() =~= index_view(before.take(at - 1)));
                assert(part.last() == before[at - 1]);
                assert(seq![before[at - 1] as int] + index_view(before.skip(at as int))
                    =~= index_view(before.skip(at - 1)));
                assert(insert_index(ks, index_view(before.take(at - 1)), i as int).push(
                    before[at - 1] as int,
                ) + index_view(before.skip(at as int)) =~= insert_index(
                    ks,
                    index_view(before.take(at - 1)),
                    i as int,
                ) + index_view(before.skip(at - 1)));
            }
            at = at - 1;
        }
        proof {
            let part = index_view(before.take(at as int));
            if at > 0 {
                assert(part.last() == before[at - 1]);
            }
            assert(insert_index(ks, part, i as int) == part.push(i as int));
        }
        order.insert(at, i);
        proof {
            assert(order@ == before.insert(at as int, i));
            assert(index_view(order@) =~= index_view(before.take(at as int)).push(i as int)
                + index_view(before.skip(at as int)));
            assert forall|a: int| 0 <= a < order.len() implies #[trigger] order[a] < i + 1 by {
                if a < at {
                    assert(order[a] == before[a]);
                } else if a > at {
                    assert(order[a] == before[a - 1]);
                }
            }
        }
        i = i + 1;
    }
    order
}

/// Whether a list of ids is strictly ascending.
pub open spec fn strictly_ascending(ids: Seq<u32>) -> bool {
    forall|i: int, j: int| #![trigger ids[i], ids[j]] 0 <= i < j < ids.len() ==> ids[i] < ids[j]
}

/// Ids without repetition, in ascending order.
pub(crate) fn sort_ids(ids: &Vec<u32>) -> (sorted: Vec<u32>)
    requires
        ids@.no_duplicates(),
    ensures
        strictly_ascending(sorted@),
        sorted.len() == ids.len(),
        forall|id: u32| #[trigger] sorted@.contains(id) <==> ids@.contains(id),
{
    let mut keys: Vec<(u64, u64)> = Vec::with_capacity(ids.len());
    let mut i: usize = 0;
    while i < ids.len()
        invariant
            i <= ids.len(),
            keys.len() == i,
            forall|k: int| 0 <= k < i ==> #[trigger] keys[k] == (ids[k] as u64, 0u64),
        decreases ids.len() - i,
    {
        keys.push((ids[i] as u64, 0));
        i = i + 1;
    }
    let order = sort_indices(&keys);
    let ghost ks = key_view(keys@);
    proof {
        lemma_stable_order(ks);
        assert forall|k: int| 0 <= k < order.len() implies #[trigger] order[k] < ids.len() by {
            assert(index_view(order@)[k] == stable_order(ks)[k]);
        }
    }
    let mut sorted: Vec<u32> = Vec::with_capacity(ids.len());
    let mut k: usize = 0;
    while k < order.len()
        invariant
            k <= order.len(),
            order.len() == ids.len(),
            sorted.len() == k,
            forall|j: int| 0 <= j < order.len() ==> #[trigger] order[j] < ids.len(),
            forall|j: int| 0 <= j < k ==> #[trigger] sorted[j] == ids[order[j] as int],
        decreases order.len() - k,
    {
        sorted.push(ids[order[k]]);
        k = k + 1;
    }
    proof {
        let so = stable_order(ks);
        assert forall|a: int, b: int| #![trigger sorted[a], sorted[b]]
            0 <= a < b < sorted.len() implies sorted[a] < sorted[b] by {
            assert(index_view(order@)[a] == so[a] && index_view(order@)[b] == so[b]);
            assert(!pair_lt(ks[so[b]], ks[so[a]]));
            assert(so[a] != so[b]);
            assert(keys[order[a] as int] == (ids[order[a] as int] as u64, 0u64));
            assert(keys[order[b] as int] == (ids[order[b] as int] as u64, 0u64));
            assert(ids[order[a] as int] != ids[order[b] as int]);
        }
        assert forall|id: u32| #[trigger] sorted@.contains(id) <==> ids@.contains(id) by {
            if sorted@.contains(id) {
                let j = choose|j: int| 0 <= j < sorted.len() && sorted[j] == id;
                assert(ids[order[j] as int] == id);
            }
            if ids@.contains(id) {
                let i = choose|i: int| 0 <= i < ids.len() && ids[i] == id;
                assert(so.contains(i));
                let j = choose|j: int| 0 <= j < so.len() && so[j] == i;
                assert(index_view(order@)[j] == i);
                assert(sorted[j] == id);
            }
        }
    }
    sorted
}

/// The keys of a map in ascending order.
pub(crate) fn ascending_keys<V>(map: &BTreeMap<u32, V>) -> (keys: Vec<u32>)
    ensures
        strictly_ascending(keys@),
        forall|id: u32| #[trigger] keys@.contains(id) <==> map@.contains_key(id),
{
    let mut keys: Vec<u32> = Vec::new();
    let ghost all = vstd::std_specs::iter::IteratorSpec::remaining(
        &vstd::std_specs::btree::spec_keys_iter(map),
    );
    for key in it: map.keys()
        invariant
            it.seq() == all,
            keys@ == all.take(it.index()).unref(),
            all.unref().to_set() == map@.dom(),
            all.no_duplicates(),
    {
        keys.push(*key);
        proof {
            assert(all.take(it.index() + 1).unref() =~= all.take(it.index()).unref().push(*key));
        }
    }
    proof {
        assert(keys@ =~= all.unref());
        assert forall|id: u32| #[trigger] keys@.contains(id) <==> map@.contains_key(id) by {
            assert(keys@.contains(id) <==> keys@.to_set().contains(id));
        }
    }
    sort_ids(&keys)
}

} // verus!
