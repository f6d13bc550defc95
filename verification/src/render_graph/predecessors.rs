//! Who held a resource's bytes before it.
use std::collections::{BTreeMap, HashMap};

use vstd::prelude::*;

use crate::render_graph::alias::Placement;
use crate::render_graph::analysis::ResourceLifetimeUsage;
use crate::render_graph::interval_set::{cover_range, holds_byte, is_interval_set, range_covered};
use crate::render_graph::sorting::{
    ascending_keys, index_view, key_view, lemma_stable_order, pair_lt, sort_ids, sort_indices,
    stable_order, strictly_ascending,
};

verus! {

broadcast use {
    vstd::std_specs::hash::group_hash_axioms,
    vstd::std_specs::btree::group_btree_axioms,
};

/// Placements by resource id.
pub type Placements = Map<u32, Placement>;

/// Lifetimes by resource id.
pub type Usages = Map<u32, ResourceLifetimeUsage>;

/// Whether a resource has memory and a lifetime.
pub open spec fn is_placed(placements: Placements, usages: Usages, id: u32) -> bool {
    placements.contains_key(id) && usages.contains_key(id)
}

/// Whether `o` held memory of `r`'s bucket and was done before `r` begins.
pub open spec fn is_candidate(placements: Placements, usages: Usages, r: u32, o: u32) -> bool {
    &&& is_placed(placements, usages, o)
    &&& placements[o].bucket == placements[r].bucket
    &&& usages[o].last_pass < usages[r].first_pass
}

/// Latest-ending first, the lower id first among those that end together.
pub open spec fn walks_before(usages: Usages, a: u32, b: u32) -> bool {
    usages[a].last_pass > usages[b].last_pass || (usages[a].last_pass == usages[b].last_pass && a
        < b)
}

/// Whether `order` lists exactly the candidates of `r`, latest-ending first.
pub open spec fn is_candidate_order(
    placements: Placements,
    usages: Usages,
    r: u32,
    order: Seq<u32>,
) -> bool {
    &&& forall|o: u32| #[trigger] order.contains(o) <==> is_candidate(placements, usages, r, o)
    &&& forall|i: int, j: int| #![trigger order[i], order[j]]
        0 <= i < j < order.len() ==> walks_before(usages, order[i], order[j])
}

/// Whether a placement holds byte `b` of its bucket.
pub open spec fn at_byte(p: Placement, b: int) -> bool {
    p.offset <= b < p.offset + p.size
}

/// Whether one of `ids` held byte `b`.
pub open spec fn held_by_one_of(placements: Placements, ids: Seq<u32>, b: int) -> bool {
    exists|i: int| 0 <= i < ids.len() && at_byte(placements[#[trigger] ids[i]], b)
}

/// Whether `o` held a byte of `r` that none of `kept` held.
pub open spec fn adds_a_byte(placements: Placements, r: u32, kept: Seq<u32>, o: u32) -> bool {
    exists|b: int| #[trigger]
        at_byte(placements[o], b) && at_byte(placements[r], b) && !held_by_one_of(
            placements,
            kept,
            b,
        )
}

/// Of the first `n` candidates, those that held a byte of `r` that no candidate kept
/// before them did.
pub open spec fn kept(placements: Placements, r: u32, order: Seq<u32>, n: nat) -> Seq<u32>
    decreases n,
{
    if n == 0 {
        Seq::empty()
    } else {
        let rest = kept(placements, r, order, (n - 1) as nat);
        if adds_a_byte(placements, r, rest, order[n - 1]) {
            rest.push(order[n - 1])
        } else {
            rest
        }
    }
}

/// The candidates of `r`, latest-ending first.
pub open spec fn candidates(placements: Placements, usages: Usages, r: u32) -> Seq<u32> {
    choose|order: Seq<u32>| is_candidate_order(placements, usages, r, order)
}

/// The candidates that `r` has to wait for itself, in the order of the walk.
pub open spec fn kept_candidates(placements: Placements, usages: Usages, r: u32) -> Seq<u32> {
    let order = candidates(placements, usages, r);
    kept(placements, r, order, order.len())
}

/// Whether two lists have the same members.
pub open spec fn same_members(a: Seq<u32>, b: Seq<u32>) -> bool {
    forall|id: u32| #[trigger] a.contains(id) <==> b.contains(id)
}

/// Whether `ids` are the resources that `r` has to wait for itself, ascending.
pub open spec fn are_predecessors(
    placements: Placements,
    usages: Usages,
    r: u32,
    ids: Seq<u32>,
) -> bool {
    strictly_ascending(ids) && same_members(ids, kept_candidates(placements, usages, r))
}

/// Whether `r` reuses anyone's bytes at all.
pub open spec fn has_predecessors(placements: Placements, usages: Usages, r: u32) -> bool {
    is_placed(placements, usages, r) && kept_candidates(placements, usages, r).len() > 0
}

/// No placement runs past the end of the address space.
pub open spec fn addressable(placements: Placements) -> bool {
    forall|id: u32| #[trigger]
        placements.contains_key(id) ==> placements[id].offset + placements[id].size <= u64::MAX
}

/// Whether `predecessors` holds, for every resource that reuses bytes and no other,
/// whom it has to wait for.
pub open spec fn predecessors_match(
    predecessors: Map<u32, Vec<u32>>,
    placements: Placements,
    usages: Usages,
) -> bool {
    forall|r: u32|
        (#[trigger] predecessors.contains_key(r) <==> has_predecessors(placements, usages, r)) && (
        predecessors.contains_key(r) ==> are_predecessors(
            placements,
            usages,
            r,
            predecessors[r]@,
        ))
}

/// Two candidate orders of one resource are the same.
proof fn lemma_candidate_order_unique(
    placements: Placements,
    usages: Usages,
    r: u32,
    a: Seq<u32>,
    b: Seq<u32>,
)
    requires
        is_candidate_order(placements, usages, r, a),
        is_candidate_order(placements, usages, r, b),
    ensures
        a == b,
{
    lemma_sorted_unique(usages, a, b);
}

proof fn lemma_sorted_unique(usages: Usages, a: Seq<u32>, b: Seq<u32>)
    requires
        forall|o: u32| #[trigger] a.contains(o) <==> b.contains(o),
        forall|i: int, j: int| #![trigger a[i], a[j]]
            0 <= i < j < a.len() ==> walks_before(usages, a[i], a[j]),
        forall|i: int, j: int| #![trigger b[i], b[j]]
            0 <= i < j < b.len() ==> walks_before(usages, b[i], b[j]),
    ensures
        a == b,
    decreases a.len(),
{
    if a.len() == 0 {
        if b.len() > 0 {
            assert(b.contains(b[0]));
            assert(a.contains(b[0]));
        }
        assert(a =~= b);
    } else {
        assert(a.contains(a.last()));
        assert(b.len() > 0);
        assert(b.contains(b.last()));
        assert(a.contains(b.last()));
        assert(a.last() == b.last()) by {
            let i = choose|i: int| 0 <= i < a.len() && a[i] == b.last();
            let j = choose|j: int| 0 <= j < b.len() && b[j] == a.last();
            if i < a.len() - 1 && j < b.len() - 1 {
                assert(walks_before(usages, a[i], a[a.len() - 1]));
                assert(walks_before(usages, b[j], b[b.len() - 1]));
            }
        }
        let x = a.drop_last();
        let y = b.drop_last();
        assert forall|o: u32| #[trigger] x.contains(o) <==> y.contains(o) by {
            if x.contains(o) {
                let i = choose|i: int| 0 <= i < x.len() && x[i] == o;
                assert(a[i] == o);
                assert(walks_before(usages, a[i], a[a.len() - 1]));
                assert(a.contains(o));
                assert(b.contains(o));
                let j = choose|j: int| 0 <= j < b.len() && b[j] == o;
                assert(y[j] == o);
            }
            if y.contains(o) {
                let j = choose|j: int| 0 <= j < y.len() && y[j] == o;
                assert(b[j] == o);
                assert(walks_before(usages, b[j], b[b.len() - 1]));
                assert(a.contains(o));
                let i = choose|i: int| 0 <= i < a.len() && a[i] == o;
                assert(x[i] == o);
            }
        }
        lemma_sorted_unique(usages, x, y);
        assert(a =~= x.push(a.last()));
        assert(b =~= y.push(b.last()));
    }
}

/// `kept` only takes from what it was given.
pub proof fn lemma_kept_members(placements: Placements, r: u32, order: Seq<u32>, n: nat)
    requires
        n <= order.len(),
    ensures
        kept(placements, r, order, n).len() <= n,
        forall|i: int|
            0 <= i < kept(placements, r, order, n).len() ==> order.take(n as int).contains(
                #[trigger] kept(placements, r, order, n)[i],
            ),
    decreases n,
{
    if n > 0 {
        let m = (n - 1) as nat;
        lemma_kept_members(placements, r, order, m);
        let few = kept(placements, r, order, m);
        let all = kept(placements, r, order, n);
        assert forall|i: int| 0 <= i < all.len() implies order.take(n as int).contains(
            #[trigger] all[i],
        ) by {
            if i < few.len() {
                assert(all[i] == few[i]);
                let k = choose|k: int| 0 <= k < m && order.take(m as int)[k] == few[i];
                assert(order.take(n as int)[k] == few[i]);
            } else {
                assert(order.take(n as int)[n - 1] == all[i]);
            }
        }
    }
}

proof fn lemma_kept_distinct(
    usages: Usages,
    placements: Placements,
    r: u32,
    order: Seq<u32>,
    n: nat,
)
    requires
        n <= order.len(),
        forall|i: int, j: int| #![trigger order[i], order[j]]
            0 <= i < j < order.len() ==> walks_before(usages, order[i], order[j]),
    ensures
        kept(placements, r, order, n).no_duplicates(),
    decreases n,
{
    if n > 0 {
        let m = (n - 1) as nat;
        lemma_kept_distinct(usages, placements, r, order, m);
        lemma_kept_members(placements, r, order, m);
        let few = kept(placements, r, order, m);
        assert forall|i: int| 0 <= i < few.len() implies #[trigger] few[i] != order[n - 1] by {
            let k = choose|k: int| 0 <= k < m && order.take(m as int)[k] == few[i];
            assert(order[k] == few[i]);
            assert(walks_before(usages, order[k], order[n - 1]));
        }
    }
}

/// Once every byte of `r` is held by a kept candidate, no further one is kept.
proof fn lemma_kept_settled(placements: Placements, r: u32, order: Seq<u32>, n: nat, m: nat)
    requires
        n <= m <= order.len(),
        forall|b: int| #[trigger]
            at_byte(placements[r], b) ==> held_by_one_of(
                placements,
                kept(placements, r, order, n),
                b,
            ),
    ensures
        kept(placements, r, order, m) == kept(placements, r, order, n),
    decreases m,
{
    if n < m {
        lemma_kept_settled(placements, r, order, n, (m - 1) as nat);
        let rest = kept(placements, r, order, (m - 1) as nat);
        if adds_a_byte(placements, r, rest, order[m - 1]) {
            let b = choose|b: int| #[trigger]
                at_byte(placements[order[m - 1]], b) && at_byte(placements[r], b)
                    && !held_by_one_of(placements, rest, b);
            assert(at_byte(placements[r], b));
        }
    }
}

/// All placed resources, latest-ending first.
fn walk_order(
    placements: &HashMap<u32, Placement>,
    usages: &BTreeMap<u32, ResourceLifetimeUsage>,
) -> (walk: Vec<u32>)
    ensures
        forall|o: u32| #[trigger] walk@.contains(o) <==> is_placed(placements@, usages@, o),
        forall|i: int, j: int| #![trigger walk@[i], walk@[j]]
            0 <= i < j < walk@.len() ==> walks_before(usages@, walk@[i], walk@[j]),
{
    let ids = ascending_keys(usages);
    let mut placed: Vec<u32> = Vec::new();
    let mut keys: Vec<(u64, u64)> = Vec::new();
    let mut i: usize = 0;
    while i < ids.len()
        invariant
            i <= ids.len(),
            strictly_ascending(ids@),
            forall|id: u32| #[trigger] ids@.contains(id) <==> usages@.contains_key(id),
            placed.len() == keys.len(),
            forall|k: int|
                0 <= k < placed.len() ==> is_placed(placements@, usages@, #[trigger] placed[k])
                    && ids@.take(i as int).contains(placed[k]) && keys[k] == (
                    (u64::MAX - usages@[placed[k]].last_pass) as u64,
                    placed[k] as u64,
                ),
            forall|k: int|
                0 <= k < i && placements@.contains_key(#[trigger] ids[k]) ==> placed@.contains(
                    ids[k],
                ),
            placed@.no_duplicates(),
        decreases ids.len() - i,
    {
        let id: u32 = ids[i];
        assert(ids@.contains(id));
        let ghost before = placed@;
        let ghost few = ids@.take(i as int);
        let ghost more = ids@.take(i + 1);
        proof {
            assert forall|x: u32| few.contains(x) implies more.contains(x) && x != id by {
                let k = choose|k: int| 0 <= k < few.len() && few[k] == x;
                assert(more[k] == x);
                assert(ids[k] < ids[i as int]);
            }
            assert(more[i as int] == id);
        }
        if placements.contains_key(&id) {
            match usages.get(&id) {
                Some(u) => {
                    let last: u64 = u.last_pass as u64;
                    placed.push(id);
                    keys.push((u64::MAX - last, id as u64));
                    proof {
                        assert(placed@[before.len() as int] == id);
                        assert forall|k: int| 0 <= k < before.len() implies #[trigger] before[k]
                            != id by {
                            assert(placed[k] == before[k]);
                            assert(few.contains(before[k]));
                        }
                    }
                },
                None => {
                    assert(false);
                },
            }
        }
        proof {
            assert forall|k: int|
                0 <= k < i + 1 && placements@.contains_key(
                    #[trigger] ids[k],
                ) implies placed@.contains(ids[k]) by {
                if k < i {
                    assert(before.contains(ids[k]));
                    let q = choose|q: int| 0 <= q < before.len() && before[q] == ids[k];
                    assert(placed@[q] == ids[k]);
                }
            }
            assert forall|k: int| 0 <= k < placed.len() implies is_placed(
                placements@,
                usages@,
                #[trigger] placed[k],
            ) && more.contains(placed[k]) && keys[k] == (
                (u64::MAX - usages@[placed[k]].last_pass) as u64,
                placed[k] as u64,
            ) by {
                if k < before.len() {
                    assert(placed[k] == before[k]);
                    assert(few.contains(before[k]));
                }
            }
        }
        i = i + 1;
    }
    let order = sort_indices(&keys);
    let ghost ks = key_view(keys@);
    let ghost so = stable_order(ks);
    proof {
        lemma_stable_order(ks);
        assert forall|k: int| 0 <= k < order.len() implies #[trigger] order[k] < placed.len()
            && order[k] == so[k] by {
            assert(index_view(order@)[k] == so[k]);
        }
    }
    let mut walk: Vec<u32> = Vec::new();
    let mut k: usize = 0;
    while k < order.len()
        invariant
            k <= order.len(),
            order.len() == placed.len(),
            walk.len() == k,
            forall|j: int| 0 <= j < order.len() ==> #[trigger] order[j] < placed.len(),
            forall|j: int| 0 <= j < k ==> #[trigger] walk[j] == placed[order[j] as int],
        decreases order.len() - k,
    {
        walk.push(placed[order[k]]);
        k = k + 1;
    }
    proof {
        assert forall|o: u32| #[trigger] walk@.contains(o) <==> is_placed(
            placements@,
            usages@,
            o,
        ) by {
            if walk@.contains(o) {
                let j = choose|j: int| 0 <= j < walk.len() && walk[j] == o;
                assert(placed[order[j] as int] == o);
            }
            if is_placed(placements@, usages@, o) {
                assert(ids@.contains(o));
                let q = choose|q: int| 0 <= q < ids.len() && ids[q] == o;
                assert(placed@.contains(ids[q]));
                let p = choose|p: int| 0 <= p < placed.len() && placed[p] == o;
                assert(so.contains(p));
                let j = choose|j: int| 0 <= j < so.len() && so[j] == p;
                assert(order[j] == so[j]);
                assert(walk[j] == o);
            }
        }
        assert forall|a: int, b: int| #![trigger walk@[a], walk@[b]]
            0 <= a < b < walk@.len() implies walks_before(usages@, walk@[a], walk@[b]) by {
            assert(order[a] == so[a] && order[b] == so[b]);
            assert(so[a] != so[b]);
            assert(!pair_lt(ks[so[b]], ks[so[a]]));
            let x = placed[so[a]];
            let y = placed[so[b]];
            assert(walk[a] == x && walk[b] == y);
            assert(placed@[so[a]] != placed@[so[b]]);
            assert(keys[so[a]] == ((u64::MAX - usages@[x].last_pass) as u64, x as u64));
            assert(keys[so[b]] == ((u64::MAX - usages@[y].last_pass) as u64, y as u64));
        }
    }
    walk
}

/// The candidates of `r` among the first `n` of `walk`.
spec fn candidates_in(
    placements: Placements,
    usages: Usages,
    r: u32,
    walk: Seq<u32>,
    n: nat,
) -> Seq<u32>
    decreases n,
{
    if n == 0 {
        Seq::empty()
    } else {
        let rest = candidates_in(placements, usages, r, walk, (n - 1) as nat);
        if is_candidate(placements, usages, r, walk[n - 1]) {
            rest.push(walk[n - 1])
        } else {
            rest
        }
    }
}

proof fn lemma_candidates_in(
    placements: Placements,
    usages: Usages,
    r: u32,
    walk: Seq<u32>,
    n: nat,
)
    requires
        n <= walk.len(),
        forall|i: int, j: int| #![trigger walk[i], walk[j]]
            0 <= i < j < walk.len() ==> walks_before(usages, walk[i], walk[j]),
    ensures
        ({
            let order = candidates_in(placements, usages, r, walk, n);
            &&& forall|o: u32| #[trigger]
                order.contains(o) <==> walk.take(n as int).contains(o) && is_candidate(
                    placements,
                    usages,
                    r,
                    o,
                )
            &&& forall|i: int, j: int| #![trigger order[i], order[j]]
                0 <= i < j < order.len() ==> walks_before(usages, order[i], order[j])
        }),
    decreases n,
{
    let order = candidates_in(placements, usages, r, walk, n);
    if n > 0 {
        let m = (n - 1) as nat;
        lemma_candidates_in(placements, usages, r, walk, m);
        let rest = candidates_in(placements, usages, r, walk, m);
        let x = walk[n - 1];
        let few = walk.take(m as int);
        let more = walk.take(n as int);
        assert forall|o: u32| #[trigger] more.contains(o) <==> few.contains(o) || o == x by {
            if few.contains(o) {
                let k = choose|k: int| 0 <= k < few.len() && few[k] == o;
                assert(more[k] == o);
            }
            if o == x {
                assert(more[n - 1] == o);
            }
            if more.contains(o) {
                let k = choose|k: int| 0 <= k < more.len() && more[k] == o;
                if k < m {
                    assert(few[k] == o);
                }
            }
        }
        assert forall|o: u32| #[trigger] order.contains(o) <==> more.contains(o) && is_candidate(
            placements,
            usages,
            r,
            o,
        ) by {
            assert(rest.contains(o) <==> few.contains(o) && is_candidate(
                placements,
                usages,
                r,
                o,
            ));
            if rest.contains(o) {
                let k = choose|k: int| 0 <= k < rest.len() && rest[k] == o;
                assert(order[k] == o);
            }
            if order.contains(o) {
                let k = choose|k: int| 0 <= k < order.len() && order[k] == o;
                if k < rest.len() {
                    assert(rest[k] == o);
                }
            }
            if is_candidate(placements, usages, r, x) {
                assert(order[rest.len() as int] == x);
            }
        }
        assert forall|i: int, j: int| #![trigger order[i], order[j]]
            0 <= i < j < order.len() implies walks_before(usages, order[i], order[j]) by {
            if j < rest.len() {
                assert(order[i] == rest[i] && order[j] == rest[j]);
            } else {
                assert(rest.contains(rest[i]));
                let k = choose|k: int| 0 <= k < few.len() && few[k] == rest[i];
                assert(walk[k] == order[i]);
                assert(walks_before(usages, walk[k], walk[n - 1]));
            }
        }
    } else {
        assert(walk.take(0) =~= Seq::<u32>::empty());
    }
}

proof fn lemma_kept_prefix(placements: Placements, r: u32, a: Seq<u32>, b: Seq<u32>, n: nat)
    requires
        n <= a.len(),
        n <= b.len(),
        forall|i: int| 0 <= i < n ==> a[i] == b[i],
    ensures
        kept(placements, r, a, n) == kept(placements, r, b, n),
    decreases n,
{
    if n > 0 {
        lemma_kept_prefix(placements, r, a, b, (n - 1) as nat);
    }
}

proof fn lemma_candidates_grow(
    placements: Placements,
    usages: Usages,
    r: u32,
    walk: Seq<u32>,
    n: nat,
    m: nat,
)
    requires
        n <= m,
    ensures
        ({
            let few = candidates_in(placements, usages, r, walk, n);
            let all = candidates_in(placements, usages, r, walk, m);
            few.len() <= all.len() && forall|i: int| 0 <= i < few.len() ==> few[i] == all[i]
        }),
    decreases m,
{
    if n < m {
        lemma_candidates_grow(placements, usages, r, walk, n, (m - 1) as nat);
    }
}

proof fn lemma_held_push(placements: Placements, ids: Seq<u32>, o: u32, b: int)
    ensures
        held_by_one_of(placements, ids.push(o), b) <==> held_by_one_of(placements, ids, b)
            || at_byte(placements[o], b),
{
    let more = ids.push(o);
    if held_by_one_of(placements, ids, b) {
        let i = choose|i: int| 0 <= i < ids.len() && at_byte(placements[#[trigger] ids[i]], b);
        assert(more[i] == ids[i]);
    }
    if at_byte(placements[o], b) {
        assert(more[ids.len() as int] == o);
    }
    if held_by_one_of(placements, more, b) {
        let i = choose|i: int| 0 <= i < more.len() && at_byte(placements[#[trigger] more[i]], b);
        if i < ids.len() {
            assert(ids[i] == more[i]);
        }
    }
}

/// The candidates that one resource has to wait for itself, in the order of the walk.
fn kept_of_one(
    placements: &HashMap<u32, Placement>,
    usages: &BTreeMap<u32, ResourceLifetimeUsage>,
    walk: &Vec<u32>,
    r: u32,
    mine: Placement,
    first_pass: usize,
) -> (prev: Vec<u32>)
    requires
        addressable(placements@),
        is_placed(placements@, usages@, r),
        mine == placements@[r],
        first_pass == usages@[r].first_pass,
        forall|o: u32| #[trigger] walk@.contains(o) <==> is_placed(placements@, usages@, o),
        forall|i: int, j: int| #![trigger walk@[i], walk@[j]]
            0 <= i < j < walk@.len() ==> walks_before(usages@, walk@[i], walk@[j]),
    ensures
        prev@ == kept_candidates(placements@, usages@, r),
        prev@.no_duplicates(),
{
    let ghost pl = placements@;
    let ghost us = usages@;
    let lo: u64 = mine.offset;
    let hi: u64 = mine.offset + mine.size;
    let ghost all = candidates_in(pl, us, r, walk@, walk@.len());
    proof {
        lemma_candidates_in(pl, us, r, walk@, walk@.len());
        assert(walk@.take(walk@.len() as int) =~= walk@);
        assert forall|o: u32| #[trigger] all.contains(o) <==> is_candidate(pl, us, r, o) by {
            if is_candidate(pl, us, r, o) {
                assert(walk@.contains(o));
            }
        }
        assert(is_candidate_order(pl, us, r, all));
        lemma_candidate_order_unique(pl, us, r, all, candidates(pl, us, r));
        lemma_kept_distinct(us, pl, r, all, all.len());
    }
    let mut covered: Vec<(u64, u64)> = Vec::new();
    let mut prev: Vec<u32> = Vec::new();
    let mut w: usize = 0;
    proof {
        assert forall|b: int| #[trigger] holds_byte(covered@, b) <==> at_byte(mine, b)
            && held_by_one_of(pl, prev@, b) by {}
    }
    while w < walk.len()
        invariant
            w <= walk.len(),
            pl == placements@,
            us == usages@,
            addressable(pl),
            is_placed(pl, us, r),
            mine == pl[r],
            lo == mine.offset,
            hi == mine.offset + mine.size,
            first_pass == us[r].first_pass,
            forall|o: u32| #[trigger] walk@.contains(o) <==> is_placed(pl, us, o),
            is_interval_set(covered@),
            forall|b: int| #[trigger]
                holds_byte(covered@, b) <==> at_byte(mine, b) && held_by_one_of(pl, prev@, b),
            prev@ == kept(
                pl,
                r,
                candidates_in(pl, us, r, walk@, w as nat),
                candidates_in(pl, us, r, walk@, w as nat).len(),
            ),
            all == candidates_in(pl, us, r, walk@, walk@.len()),
            kept_candidates(pl, us, r) == kept(pl, r, all, all.len()),
            kept(pl, r, all, all.len()).no_duplicates(),
        decreases walk.len() - w,
    {
        let other: u32 = walk[w];
        assert(walk@.contains(other));
        let theirs: Placement = match placements.get(&other) {
            Some(p) => *p,
            None => mine,
        };
        let last_pass: usize = match usages.get(&other) {
            Some(u) => u.last_pass,
            None => first_pass,
        };
        let ghost few = candidates_in(pl, us, r, walk@, w as nat);
        let ghost more = candidates_in(pl, us, r, walk@, (w + 1) as nat);
        let ghost before = prev@;
        if theirs.bucket == mine.bucket && last_pass < first_pass {
            proof {
                assert(is_candidate(pl, us, r, other));
                assert(more == few.push(other));
                lemma_kept_prefix(pl, r, few, more, few.len());
                assert(kept(pl, r, more, more.len()) == if adds_a_byte(pl, r, before, other) {
                    before.push(other)
                } else {
                    before
                });
            }
            let start: u64 = if lo > theirs.offset {
                lo
            } else {
                theirs.offset
            };
            let their_end: u64 = theirs.offset + theirs.size;
            let end: u64 = if hi < their_end {
                hi
            } else {
                their_end
            };
            if start < end && !range_covered(&covered, start, end) {
                proof {
                    let b = choose|b: int| start <= b < end && !holds_byte(covered@, b);
                    assert(at_byte(pl[other], b) && at_byte(pl[r], b));
                    assert(!held_by_one_of(pl, before, b));
                    assert(adds_a_byte(pl, r, before, other));
                }
                let ghost bytes = covered@;
                cover_range(&mut covered, start, end);
                prev.push(other);
                proof {
                    assert forall|b: int| #[trigger] holds_byte(covered@, b) <==> at_byte(mine, b)
                        && held_by_one_of(pl, prev@, b) by {
                        lemma_held_push(pl, before, other, b);
                        assert(holds_byte(bytes, b) <==> at_byte(mine, b) && held_by_one_of(
                            pl,
                            before,
                            b,
                        ));
                    }
                }
                // Every clipped span lies inside `[lo, hi)`, so a merged list that is
                // exactly that one interval means the range is fully covered and every
                // remaining candidate would be pruned.
                if covered.len() == 1 && covered[0].0 == lo && covered[0].1 == hi {
                    proof {
                        let now = more;
                        assert forall|b: int| #[trigger] at_byte(pl[r], b) implies held_by_one_of(
                            pl,
                            kept(pl, r, all, now.len()),
                            b,
                        ) by {
                            assert(covered@[0].0 <= b < covered@[0].1);
                            assert(holds_byte(covered@, b));
                            lemma_candidates_grow(pl, us, r, walk@, (w + 1) as nat, walk@.len());
                            lemma_kept_prefix(pl, r, now, all, now.len());
                        }
                        lemma_candidates_grow(pl, us, r, walk@, (w + 1) as nat, walk@.len());
                        lemma_kept_prefix(pl, r, now, all, now.len());
                        lemma_kept_settled(pl, r, all, now.len(), all.len());
                    }
                    return prev;
                }
            } else {
                proof {
                    if adds_a_byte(pl, r, before, other) {
                        let b = choose|b: int| #[trigger]
                            at_byte(pl[other], b) && at_byte(pl[r], b) && !held_by_one_of(
                                pl,
                                before,
                                b,
                            );
                        assert(start <= b < end);
                        assert(holds_byte(covered@, b));
                    }
                }
            }
        } else {
            assert(!is_candidate(pl, us, r, other));
        }
        w = w + 1;
    }
    prev
}

/// For every transient resource, every earlier resource that occupied bytes it now
/// overlaps.
///
/// "Earlier" is strict: the other's last pass comes before this one's first pass. Two
/// resources whose lifetimes overlap must never have been given overlapping bytes in
/// the first place, so a byte overlap here always means a sequential reuse that needs
/// ordering.
///
/// This is a set rather than a single predecessor because packing at offsets can land
/// one resource on top of several smaller ones lying side by side, and it must wait
/// for all of them.
///
/// The set is pruned to the ones that actually matter. Candidates are walked
/// latest-ending first and a candidate is dropped once the bytes it shares with `r`
/// are already covered by ones kept so far: whoever covers them waited for it.
pub fn alias_predecessors(
    placements: &HashMap<u32, Placement>,
    resource_usages: &BTreeMap<u32, ResourceLifetimeUsage>,
) -> (predecessors: HashMap<u32, Vec<u32>>)
    requires
        addressable(placements@),
    ensures
        predecessors_match(predecessors@, placements@, resource_usages@),
{
    let ghost pl = placements@;
    let ghost us = resource_usages@;
    let walk = walk_order(placements, resource_usages);
    let mut predecessors: HashMap<u32, Vec<u32>> = HashMap::new();
    let mut i: usize = 0;
    while i < walk.len()
        invariant
            i <= walk.len(),
            pl == placements@,
            us == resource_usages@,
            addressable(pl),
            forall|o: u32| #[trigger] walk@.contains(o) <==> is_placed(pl, us, o),
            forall|a: int, b: int| #![trigger walk@[a], walk@[b]]
                0 <= a < b < walk@.len() ==> walks_before(us, walk@[a], walk@[b]),
            forall|r: u32|
                (#[trigger] predecessors@.contains_key(r) <==> walk@.take(i as int).contains(r)
                    && has_predecessors(pl, us, r)) && (predecessors@.contains_key(r)
                    ==> are_predecessors(pl, us, r, predecessors@[r]@)),
        decreases walk.len() - i,
    {
        let r: u32 = walk[i];
        assert(walk@.contains(r));
        let mine: Placement = match placements.get(&r) {
            Some(p) => *p,
            None => Placement { bucket: 0, offset: 0, size: 0 },
        };
        let first_pass: usize = match resource_usages.get(&r) {
            Some(u) => u.first_pass,
            None => 0,
        };
        let prev = kept_of_one(placements, resource_usages, &walk, r, mine, first_pass);
        let ghost before = predecessors@;
        if prev.len() > 0 {
            let sorted = sort_ids(&prev);
            assert(are_predecessors(pl, us, r, sorted@));
            predecessors.insert(r, sorted);
        }
        proof {
            let few = walk@.take(i as int);
            let more = walk@.take(i + 1);
            assert forall|x: u32|
                (#[trigger] predecessors@.contains_key(x) <==> more.contains(x)
                    && has_predecessors(pl, us, x)) && (predecessors@.contains_key(x)
                    ==> are_predecessors(pl, us, x, predecessors@[x]@)) by {
                assert(before.contains_key(x) <==> few.contains(x) && has_predecessors(pl, us, x));
                if few.contains(x) {
                    let k = choose|k: int| 0 <= k < few.len() && few[k] == x;
                    assert(more[k] == x);
                }
                assert(more[i as int] == r);
                if more.contains(x) && x != r {
                    let k = choose|k: int| 0 <= k < more.len() && more[k] == x;
                    assert(few[k] == x);
                }
            }
        }
        i = i + 1;
    }
    proof {
        assert(walk@.take(i as int) =~= walk@);
        assert forall|r: u32|
            (#[trigger] predecessors@.contains_key(r) <==> has_predecessors(pl, us, r)) && (
            predecessors@.contains_key(r) ==> are_predecessors(
                pl,
                us,
                r,
                predecessors@[r]@,
            )) by {
            if has_predecessors(pl, us, r) {
                assert(walk@.contains(r));
            }
        }
    }
    predecessors
}

// ---------------------------------------------------------------------------
// Every reuse is ordered
// ---------------------------------------------------------------------------

/// The candidates of `r` with ids below `n`, by ascending id.
spec fn candidates_below(placements: Placements, usages: Usages, r: u32, n: nat) -> Seq<u32>
    decreases n,
{
    if n == 0 {
        Seq::empty()
    } else {
        let rest = candidates_below(placements, usages, r, (n - 1) as nat);
        let o = (n - 1) as u32;
        if is_candidate(placements, usages, r, o) {
            rest.push(o)
        } else {
            rest
        }
    }
}

proof fn lemma_candidates_below(placements: Placements, usages: Usages, r: u32, n: nat)
    requires
        n <= 0x1_0000_0000,
    ensures
        ({
            let list = candidates_below(placements, usages, r, n);
            &&& strictly_ascending(list)
            &&& forall|o: u32| #[trigger]
                list.contains(o) <==> o < n && is_candidate(placements, usages, r, o)
        }),
    decreases n,
{
    if n > 0 {
        let m = (n - 1) as nat;
        lemma_candidates_below(placements, usages, r, m);
        let rest = candidates_below(placements, usages, r, m);
        let list = candidates_below(placements, usages, r, n);
        let x = m as u32;
        assert forall|i: int| 0 <= i < rest.len() implies #[trigger] rest[i] < m by {
            assert(rest.contains(rest[i]));
        }
        assert forall|o: u32| #[trigger] list.contains(o) <==> o < n && is_candidate(
            placements,
            usages,
            r,
            o,
        ) by {
            assert(rest.contains(o) <==> o < m && is_candidate(placements, usages, r, o));
            if rest.contains(o) {
                let k = choose|k: int| 0 <= k < rest.len() && rest[k] == o;
                assert(list[k] == o);
            }
            if list.contains(o) {
                let k = choose|k: int| 0 <= k < list.len() && list[k] == o;
                if k < rest.len() {
                    assert(rest[k] == o);
                }
            }
            if o == x && is_candidate(placements, usages, r, x) {
                assert(list[rest.len() as int] == x);
            }
        }
    }
}

/// Every resource has a candidate order, and `candidates` gives it.
pub proof fn lemma_candidates(placements: Placements, usages: Usages, r: u32)
    ensures
        is_candidate_order(placements, usages, r, candidates(placements, usages, r)),
{
    let n: nat = 0x1_0000_0000;
    let list = candidates_below(placements, usages, r, n);
    lemma_candidates_below(placements, usages, r, n);
    let keys = Seq::new(
        list.len(),
        |i: int| (-(usages[list[i]].last_pass as int), list[i] as int),
    );
    let so = stable_order(keys);
    lemma_stable_order(keys);
    let order = Seq::new(list.len(), |i: int| list[so[i]]);
    assert forall|o: u32| #[trigger] order.contains(o) <==> is_candidate(
        placements,
        usages,
        r,
        o,
    ) by {
        assert(list.contains(o) <==> o < n && is_candidate(placements, usages, r, o));
        if order.contains(o) {
            let k = choose|k: int| 0 <= k < order.len() && order[k] == o;
            assert(list[so[k]] == o);
        }
        if list.contains(o) {
            let i = choose|i: int| 0 <= i < list.len() && list[i] == o;
            assert(so.contains(i));
            let k = choose|k: int| 0 <= k < so.len() && so[k] == i;
            assert(order[k] == o);
        }
    }
    assert forall|i: int, j: int| #![trigger order[i], order[j]]
        0 <= i < j < order.len() implies walks_before(usages, order[i], order[j]) by {
        assert(!pair_lt(keys[so[j]], keys[so[i]]));
        assert(so[i] != so[j]);
        if so[i] < so[j] {
            assert(list[so[i]] < list[so[j]]);
        } else {
            assert(list[so[j]] < list[so[i]]);
        }
    }
    assert(is_candidate_order(placements, usages, r, order));
}

/// Whether the `k`-th resource of a chain has to wait for the next one itself.
pub open spec fn waits_at(placements: Placements, usages: Usages, chain: Seq<u32>, k: int) -> bool {
    is_placed(placements, usages, chain[k]) && kept_candidates(
        placements,
        usages,
        chain[k],
    ).contains(chain[k + 1])
}

/// Whether a chain of waits leads from `a` to `b`.
pub open spec fn is_wait_chain(
    placements: Placements,
    usages: Usages,
    chain: Seq<u32>,
    a: u32,
    b: u32,
) -> bool {
    &&& chain.len() > 1
    &&& chain[0] == a
    &&& chain[chain.len() - 1] == b
    &&& forall|k: int|
        0 <= k < chain.len() - 1 ==> #[trigger] waits_at(placements, usages, chain, k)
}

/// Whether `a` has to wait for `b`, directly or through others.
pub open spec fn waits_for(placements: Placements, usages: Usages, a: u32, b: u32) -> bool {
    exists|chain: Seq<u32>| #[trigger] is_wait_chain(placements, usages, chain, a, b)
}

/// Whether resources that are live together hold no common byte.
pub open spec fn keeps_live_apart(placements: Placements, usages: Usages) -> bool {
    forall|x: u32, y: u32, b: int|
        #![trigger at_byte(placements[x], b), at_byte(placements[y], b)]
        x != y && is_placed(placements, usages, x) && is_placed(placements, usages, y)
            && placements[x].bucket == placements[y].bucket && usages[x].first_pass
            <= usages[y].last_pass && usages[y].first_pass <= usages[x].last_pass ==> !(at_byte(
            placements[x],
            b,
        ) && at_byte(placements[y], b))
}

proof fn lemma_kept_stays(placements: Placements, r: u32, order: Seq<u32>, n: nat, m: nat, x: u32)
    requires
        n <= m,
        kept(placements, r, order, n).contains(x),
    ensures
        kept(placements, r, order, m).contains(x),
    decreases m,
{
    if n < m {
        lemma_kept_stays(placements, r, order, n, (m - 1) as nat, x);
        let rest = kept(placements, r, order, (m - 1) as nat);
        let k = choose|k: int| 0 <= k < rest.len() && rest[k] == x;
        assert(kept(placements, r, order, m)[k] == x);
    }
}

/// Every reuse of bytes is ordered: a resource that stands on bytes which another
/// held before it waits for that one, directly or through others that stood there in
/// between.
pub proof fn law_every_reuse_is_ordered(
    placements: Placements,
    usages: Usages,
    a: u32,
    b: u32,
    byte: int,
)
    requires
        is_placed(placements, usages, a),
        is_placed(placements, usages, b),
        forall|id: u32| #[trigger]
            is_placed(placements, usages, id) ==> usages[id].first_pass <= usages[id].last_pass,
        keeps_live_apart(placements, usages),
        usages[b].last_pass < usages[a].first_pass,
        placements[a].bucket == placements[b].bucket,
        at_byte(placements[a], byte),
        at_byte(placements[b], byte),
    ensures
        waits_for(placements, usages, a, b),
    decreases usages[a].first_pass,
{
    let order = candidates(placements, usages, a);
    lemma_candidates(placements, usages, a);
    assert(is_candidate(placements, usages, a, b));
    assert(order.contains(b));
    let i = choose|i: int| 0 <= i < order.len() && order[i] == b;
    let rest = kept(placements, a, order, i as nat);
    if adds_a_byte(placements, a, rest, b) {
        let now = kept(placements, a, order, (i + 1) as nat);
        assert(now == rest.push(b));
        assert(now[rest.len() as int] == b);
        lemma_kept_stays(placements, a, order, (i + 1) as nat, order.len(), b);
        let chain = seq![a, b];
        assert(waits_at(placements, usages, chain, 0));
        assert(is_wait_chain(placements, usages, chain, a, b));
    } else {
        assert(at_byte(placements[b], byte) && at_byte(placements[a], byte));
        assert(held_by_one_of(placements, rest, byte));
        let j = choose|j: int|
            0 <= j < rest.len() && at_byte(placements[#[trigger] rest[j]], byte);
        let k = rest[j];
        lemma_kept_members(placements, a, order, i as nat);
        assert(order.take(i).contains(k));
        let p = choose|p: int| 0 <= p < i && order.take(i)[p] == k;
        assert(order[p] == k);
        assert(walks_before(usages, order[p], order[i]));
        assert(order.contains(k));
        assert(is_candidate(placements, usages, a, k));
        assert(k != b);
        assert(at_byte(placements[k], byte));
        assert(usages[b].last_pass < usages[k].first_pass);
        law_every_reuse_is_ordered(placements, usages, k, b, byte);
        let tail = choose|chain: Seq<u32>| #[trigger]
            is_wait_chain(placements, usages, chain, k, b);
        let chain = seq![a] + tail;
        assert(rest.contains(k));
        lemma_kept_stays(placements, a, order, i as nat, order.len(), k);
        assert forall|q: int| 0 <= q < chain.len() - 1 implies #[trigger] waits_at(
            placements,
            usages,
            chain,
            q,
        ) by {
            if q > 0 {
                assert(waits_at(placements, usages, tail, q - 1));
            }
        }
        assert(is_wait_chain(placements, usages, chain, a, b));
    }
}

/// Whom a resource waits for itself was done before it begins, and held bytes of it.
pub proof fn law_predecessors_are_earlier_occupants(
    placements: Placements,
    usages: Usages,
    r: u32,
    o: u32,
)
    requires
        is_placed(placements, usages, r),
        kept_candidates(placements, usages, r).contains(o),
    ensures
        is_placed(placements, usages, o),
        usages[o].last_pass < usages[r].first_pass,
        placements[o].meets(placements[r]),
{
    let order = candidates(placements, usages, r);
    lemma_candidates(placements, usages, r);
    lemma_kept_members(placements, r, order, order.len());
    let all = kept(placements, r, order, order.len());
    let i = choose|i: int| 0 <= i < all.len() && all[i] == o;
    assert(order.take(order.len() as int) =~= order);
    assert(order.contains(all[i]));
    lemma_kept_adds(placements, r, order, order.len(), i);
    let b = choose|b: int| #[trigger] at_byte(placements[o], b) && at_byte(placements[r], b);
}

proof fn lemma_kept_adds(placements: Placements, r: u32, order: Seq<u32>, n: nat, i: int)
    requires
        0 <= i < kept(placements, r, order, n).len(),
    ensures
        exists|b: int| #[trigger]
            at_byte(placements[kept(placements, r, order, n)[i]], b) && at_byte(
                placements[r],
                b,
            ),
    decreases n,
{
    if n > 0 {
        let rest = kept(placements, r, order, (n - 1) as nat);
        if i < rest.len() {
            lemma_kept_adds(placements, r, order, (n - 1) as nat, i);
            assert(kept(placements, r, order, n)[i] == rest[i]);
        } else {
            let o = order[n - 1];
            assert(kept(placements, r, order, n)[i] == o);
            let b = choose|b: int| #[trigger]
                at_byte(placements[o], b) && at_byte(placements[r], b) && !held_by_one_of(
                    placements,
                    rest,
                    b,
                );
            assert(at_byte(placements[kept(placements, r, order, n)[i]], b));
        }
    }
}

} // verus!
