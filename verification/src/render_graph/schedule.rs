//! The order in which passes run.
use petgraph::graph::DiGraph;
use vstd::prelude::*;

use crate::error::{SrError, SrResult};
use crate::render_graph::dep_graph::{
    edges, incoming_neighbors, leads, node_count, node_weight, node_weights, outgoing_neighbors,
    sources, targets,
};

verus! {

/// An edge list as the graph holds it.
pub type Edges = Seq<(usize, usize, Seq<u32>)>;

/// Whether node `i` of `n` has not been emitted yet and all its predecessors have.
pub open spec fn is_ready(list: Edges, n: int, emitted: Seq<int>, i: int) -> bool {
    &&& 0 <= i < n
    &&& !emitted.contains(i)
    &&& forall|e: int|
        0 <= e < list.len() && (#[trigger] list[e]).1 == i ==> emitted.contains(list[e].0 as int)
}

/// Whether `order` always emits the least node that is ready.
pub open spec fn emits_least_ready(list: Edges, n: int, order: Seq<int>) -> bool {
    forall|k: int|
        0 <= k < order.len() ==> {
            &&& is_ready(list, n, order.take(k), #[trigger] order[k])
            &&& forall|i: int| is_ready(list, n, order.take(k), i) ==> order[k] <= i
        }
}

/// Whether `nodes` can be ranked so that every edge leads to a higher rank: the
/// graph has no cycle.
pub open spec fn is_acyclic(list: Edges, n: int) -> bool {
    exists|rank: Seq<int>| #[trigger] ranks_edges(list, n, rank)
}

/// Whether every edge leads to a higher rank.
pub open spec fn ranks_edges(list: Edges, n: int, rank: Seq<int>) -> bool {
    &&& rank.len() == n
    &&& forall|e: int|
        0 <= e < list.len() ==> rank[(#[trigger] list[e]).0 as int] < rank[list[e].1 as int]
}

/// The weights of the nodes that `order` lists.
pub open spec fn weights_of(weights: Seq<usize>, order: Seq<int>) -> Seq<usize> {
    Seq::new(order.len(), |k: int| weights[order[k]])
}

/// Whether `schedule` is the whole graph in its order of emission.
pub open spec fn is_schedule(weights: Seq<usize>, list: Edges, schedule: Seq<usize>) -> bool {
    exists|order: Seq<int>| #[trigger] schedules(weights, list, order, schedule)
}

/// Whether `schedule` is the whole graph, emitted in this order of nodes.
pub open spec fn schedules(
    weights: Seq<usize>,
    list: Edges,
    order: Seq<int>,
    schedule: Seq<usize>,
) -> bool {
    &&& order.len() == weights.len()
    &&& emits_least_ready(list, weights.len() as int, order)
    &&& schedule == weights_of(weights, order)
}

/// How many of the first `n` edges enter `i` from a node not yet emitted.
spec fn unmet(list: Edges, emitted: Seq<int>, i: int, n: nat) -> nat
    decreases n,
{
    if n == 0 {
        0
    } else {
        unmet(list, emitted, i, (n - 1) as nat) + if list[n - 1].1 == i && !emitted.contains(
            list[n - 1].0 as int,
        ) {
            1nat
        } else {
            0nat
        }
    }
}

/// How many of the first `n` edges lead from `v` to `i`.
spec fn links(list: Edges, v: int, i: int, n: nat) -> nat
    decreases n,
{
    if n == 0 {
        0
    } else {
        links(list, v, i, (n - 1) as nat) + if list[n - 1].0 == v && list[n - 1].1 == i {
            1nat
        } else {
            0nat
        }
    }
}

proof fn lemma_unmet_all(list: Edges, i: int, n: nat)
    requires
        n <= list.len(),
    ensures
        unmet(list, Seq::empty(), i, n) == sources(list, i, n).len(),
    decreases n,
{
    if n > 0 {
        lemma_unmet_all(list, i, (n - 1) as nat);
    }
}

proof fn lemma_unmet_zero(list: Edges, emitted: Seq<int>, i: int, n: nat)
    requires
        n <= list.len(),
    ensures
        unmet(list, emitted, i, n) == 0 <==> forall|e: int|
            0 <= e < n && (#[trigger] list[e]).1 == i ==> emitted.contains(list[e].0 as int),
    decreases n,
{
    if n > 0 {
        lemma_unmet_zero(list, emitted, i, (n - 1) as nat);
        if unmet(list, emitted, i, n) == 0 {
            assert forall|e: int| 0 <= e < n && (#[trigger] list[e]).1 == i implies emitted.contains(
                list[e].0 as int,
            ) by {
                if e < n - 1 {
                }
            }
        } else if forall|e: int|
            0 <= e < n && (#[trigger] list[e]).1 == i ==> emitted.contains(list[e].0 as int) {
            assert(!(list[n - 1].1 == i && !emitted.contains(list[n - 1].0 as int)));
        }
    }
}

proof fn lemma_unmet_step(list: Edges, emitted: Seq<int>, v: int, i: int, n: nat)
    requires
        n <= list.len(),
        !emitted.contains(v),
    ensures
        unmet(list, emitted.push(v), i, n) + links(list, v, i, n) == unmet(list, emitted, i, n),
    decreases n,
{
    if n > 0 {
        lemma_unmet_step(list, emitted, v, i, (n - 1) as nat);
        let x = list[n - 1].0 as int;
        lemma_push_contains(emitted, v, x);
    }
}

proof fn lemma_push_contains(s: Seq<int>, v: int, x: int)
    ensures
        s.push(v).contains(x) <==> s.contains(x) || x == v,
{
    if s.contains(x) {
        let k = choose|k: int| 0 <= k < s.len() && s[k] == x;
        assert(s.push(v)[k] == x);
    }
    if x == v {
        assert(s.push(v)[s.len() as int] == x);
    }
    if s.push(v).contains(x) {
        let k = choose|k: int| 0 <= k < s.push(v).len() && s.push(v)[k] == x;
        if k < s.len() {
            assert(s[k] == x);
        }
    }
}

/// How often `x` occurs among the first `n` of `list`.
spec fn occurrences(list: Seq<usize>, x: int, n: nat) -> nat
    decreases n,
{
    if n == 0 {
        0
    } else {
        occurrences(list, x, (n - 1) as nat) + if list[n - 1] == x {
            1nat
        } else {
            0nat
        }
    }
}

proof fn lemma_occurrences_count(list: Seq<usize>, x: usize, n: nat)
    requires
        n <= list.len(),
    ensures
        occurrences(list, x as int, n) == list.take(n as int).to_multiset().count(x),
    decreases n,
{
    broadcast use vstd::seq_lib::group_to_multiset_ensures;

    if n > 0 {
        lemma_occurrences_count(list, x, (n - 1) as nat);
        assert(list.take(n as int) =~= list.take(n - 1).push(list[n - 1]));
        assert(list.take(n as int).to_multiset() == list.take(n - 1).to_multiset().insert(
            list[n - 1],
        ));
    } else {
        assert(list.take(0) =~= Seq::<usize>::empty());
    }
}

proof fn lemma_targets_links(list: Edges, v: int, i: usize, n: nat)
    requires
        n <= list.len(),
    ensures
        targets(list, v, n).to_multiset().count(i) == links(list, v, i as int, n),
    decreases n,
{
    broadcast use vstd::seq_lib::group_to_multiset_ensures;

    if n > 0 {
        lemma_targets_links(list, v, i, (n - 1) as nat);
        let rest = targets(list, v, (n - 1) as nat);
        if list[n - 1].0 == v {
            assert(rest.push(list[n - 1].1).to_multiset() == rest.to_multiset().insert(
                list[n - 1].1,
            ));
        }
    }
}

/// Everything that `outs` lists is a node.
proof fn lemma_targets_in_range(list: Edges, v: int, n: nat, bound: int, outs: Seq<usize>)
    requires
        n <= list.len(),
        forall|e: int| 0 <= e < list.len() ==> (#[trigger] list[e]).1 < bound,
        outs.to_multiset() == targets(list, v, n).to_multiset(),
    ensures
        forall|k: int| 0 <= k < outs.len() ==> #[trigger] outs[k] < bound,
{
    broadcast use vstd::seq_lib::group_to_multiset_ensures;

    assert forall|k: int| 0 <= k < outs.len() implies #[trigger] outs[k] < bound by {
        assert(outs.contains(outs[k]));
        assert(outs.to_multiset().count(outs[k]) > 0);
        lemma_targets_links(list, v, outs[k], n);
        lemma_links_positive(list, v, outs[k] as int, n);
    }
}

proof fn lemma_links_positive(list: Edges, v: int, i: int, n: nat)
    requires
        n <= list.len(),
        links(list, v, i, n) > 0,
    ensures
        exists|e: int| 0 <= e < n && #[trigger] leads(list, e, v, i),
    decreases n,
{
    if list[n - 1].0 == v && list[n - 1].1 == i {
        assert(leads(list, n - 1, v, i));
    } else {
        lemma_links_positive(list, v, i, (n - 1) as nat);
        let e = choose|e: int| 0 <= e < n - 1 && #[trigger] leads(list, e, v, i);
        assert(leads(list, e, v, i));
    }
}

/// An order of emission never repeats a node.
pub proof fn lemma_emission_distinct(list: Edges, n: int, order: Seq<int>)
    requires
        emits_least_ready(list, n, order),
    ensures
        order.no_duplicates(),
        forall|k: int| 0 <= k < order.len() ==> 0 <= #[trigger] order[k] < n,
{
    assert forall|a: int, b: int| 0 <= a < order.len() && 0 <= b < order.len() && a != b implies order[a]
        != order[b] by {
        if a < b {
            assert(is_ready(list, n, order.take(b), order[b]));
            assert(order.take(b)[a] == order[a]);
        } else {
            assert(is_ready(list, n, order.take(a), order[a]));
            assert(order.take(a)[b] == order[b]);
        }
    }
    assert forall|k: int| 0 <= k < order.len() implies 0 <= #[trigger] order[k] < n by {
        assert(is_ready(list, n, order.take(k), order[k]));
    }
}

/// Distinct numbers below `n` are no more than `n`, and all of them if `n` many.
pub proof fn lemma_distinct_below(s: Seq<int>, n: int)
    requires
        n >= 0,
        s.no_duplicates(),
        forall|k: int| 0 <= k < s.len() ==> 0 <= #[trigger] s[k] < n,
    ensures
        s.len() <= n,
        s.len() == n ==> forall|i: int| 0 <= i < n ==> #[trigger] s.contains(i),
{
    let range = vstd::set_lib::set_int_range(0, n);
    vstd::set_lib::lemma_int_range(0, n);
    s.unique_seq_to_set();
    assert(s.to_set().subset_of(range)) by {
        assert forall|x: int| s.to_set().contains(x) implies range.contains(x) by {
            let k = choose|k: int| 0 <= k < s.len() && s[k] == x;
            assert(0 <= s[k] < n);
        }
    }
    vstd::set_lib::lemma_len_subset(s.to_set(), range);
    if s.len() == n {
        vstd::set_lib::lemma_subset_equality(s.to_set(), range);
        assert forall|i: int| 0 <= i < n implies #[trigger] s.contains(i) by {
            assert(range.contains(i));
            assert(s.to_set().contains(i));
        }
    }
}

/// A whole order of emission ranks the edges by position.
proof fn lemma_order_is_acyclic(list: Edges, n: int, order: Seq<int>)
    requires
        n >= 0,
        order.len() == n,
        emits_least_ready(list, n, order),
        forall|e: int| 0 <= e < list.len() ==> (#[trigger] list[e]).0 < n && list[e].1 < n,
    ensures
        is_acyclic(list, n),
{
    lemma_emission_distinct(list, n, order);
    lemma_distinct_below(order, n);
    let rank = Seq::new(n as nat, |i: int| order.index_of(i));
    assert forall|e: int| 0 <= e < list.len() implies rank[(#[trigger] list[e]).0 as int]
        < rank[list[e].1 as int] by {
        let a = list[e].0 as int;
        let b = list[e].1 as int;
        assert(order.contains(a) && order.contains(b));
        let kb = order.index_of(b);
        assert(order[kb] == b);
        assert(is_ready(list, n, order.take(kb), order[kb]));
        assert(order.take(kb).contains(a));
        let ka = choose|ka: int| 0 <= ka < kb && order.take(kb)[ka] == a;
        assert(order[ka] == a);
        assert(order[order.index_of(a)] == a);
        assert(order.index_of(a) == ka);
    }
    assert(ranks_edges(list, n, rank));
}

/// The least-ranked node of those not emitted.
proof fn lemma_least_rank(rank: Seq<int>, emitted: Seq<int>, n: int) -> (i: int)
    requires
        rank.len() >= n,
        exists|i: int| 0 <= i < n && !#[trigger] emitted.contains(i),
    ensures
        0 <= i < n,
        !emitted.contains(i),
        forall|j: int| 0 <= j < n && !#[trigger] emitted.contains(j) ==> rank[i] <= rank[j],
    decreases n,
{
    let m = n - 1;
    if exists|i: int| 0 <= i < m && !#[trigger] emitted.contains(i) {
        let i = lemma_least_rank(rank, emitted, m);
        if !emitted.contains(m) && rank[m] < rank[i] {
            m
        } else {
            i
        }
    } else {
        let i = choose|i: int| 0 <= i < n && !#[trigger] emitted.contains(i);
        assert(i == m);
        m
    }
}

/// Where nodes are left over and none is ready, there is a cycle.
proof fn lemma_stuck_is_cyclic(list: Edges, n: int, order: Seq<int>)
    requires
        n >= 0,
        order.len() < n,
        emits_least_ready(list, n, order),
        forall|i: int| !is_ready(list, n, order, i),
        forall|e: int| 0 <= e < list.len() ==> (#[trigger] list[e]).0 < n && list[e].1 < n,
    ensures
        !is_acyclic(list, n),
{
    if is_acyclic(list, n) {
        let rank = choose|rank: Seq<int>| #[trigger] ranks_edges(list, n, rank);
        lemma_emission_distinct(list, n, order);
        if forall|i: int| 0 <= i < n ==> #[trigger] order.contains(i) {
            vstd::set_lib::lemma_int_range(0, n);
            order.unique_seq_to_set();
            assert(order.to_set() =~= vstd::set_lib::set_int_range(0, n)) by {
                assert forall|x: int| vstd::set_lib::set_int_range(0, n).contains(x) implies order.to_set().contains(
                    x,
                ) by {
                    assert(order.contains(x));
                }
            }
        }
        let i = lemma_least_rank(rank, order, n);
        assert(!is_ready(list, n, order, i));
        let e = choose|e: int|
            0 <= e < list.len() && (#[trigger] list[e]).1 == i && !order.contains(
                list[e].0 as int,
            );
        assert(rank[list[e].0 as int] < rank[list[e].1 as int]);
    }
}

/// Takes the least element out of a non-empty list.
fn take_least(ready: &mut Vec<usize>) -> (least: usize)
    requires
        old(ready).len() > 0,
        old(ready)@.no_duplicates(),
    ensures
        old(ready)@.contains(least),
        forall|k: int| 0 <= k < old(ready).len() ==> least <= #[trigger] old(ready)[k],
        final(ready)@.no_duplicates(),
        forall|x: usize| #[trigger]
            final(ready)@.contains(x) <==> old(ready)@.contains(x) && x != least,
{
    let mut at: usize = 0;
    let mut k: usize = 1;
    while k < ready.len()
        invariant
            1 <= k <= ready.len(),
            at < k,
            forall|j: int| 0 <= j < k ==> ready[at as int] <= #[trigger] ready[j],
        decreases ready.len() - k,
    {
        if ready[k] < ready[at] {
            at = k;
        }
        k = k + 1;
    }
    let ghost before = ready@;
    let least = ready.remove(at);
    proof {
        assert(before[at as int] == least);
        let after = ready@;
        assert forall|j: int| 0 <= j < after.len() implies #[trigger] after[j] == before[if j < at {
            j
        } else {
            j + 1
        }] by {}
        assert forall|x: usize| #[trigger] after.contains(x) <==> before.contains(x) && x != least by {
            if after.contains(x) {
                let j = choose|j: int| 0 <= j < after.len() && after[j] == x;
                let o = if j < at {
                    j
                } else {
                    j + 1
                };
                assert(before[o] == x);
                assert(before[at as int] != before[o]);
            }
            if before.contains(x) && x != least {
                let o = choose|o: int| 0 <= o < before.len() && before[o] == x;
                let j = if o < at {
                    o
                } else {
                    o - 1
                };
                assert(after[j] == x);
            }
        }
    }
    least
}

/// Topological order of the pass graph, as pass ids.
///
/// Kahn's algorithm that always emits the least node that is ready, so ties break
/// on declaration order. Determinism is load-bearing here: the barrier planner walks
/// each resource's usages in this linearization to decide where barriers go, and the
/// record loop replays the same order, so the two must agree exactly and
/// reproducibly.
pub fn kahn_toposort(dep_graph: &DiGraph<usize, Vec<u32>>) -> (schedule: SrResult<Vec<usize>>)
    ensures
        match schedule {
            Ok(order) => is_acyclic(edges(*dep_graph), node_weights(*dep_graph).len() as int)
                && is_schedule(node_weights(*dep_graph), edges(*dep_graph), order@),
            Err(e) => !is_acyclic(edges(*dep_graph), node_weights(*dep_graph).len() as int)
                && e.is_custom("render graph dependency graph contains a cycle"@),
        },
{
    let n: usize = node_count(dep_graph);
    let ghost list = edges(*dep_graph);
    let ghost weights = node_weights(*dep_graph);
    let ghost m = list.len();
    let mut indegree: Vec<usize> = Vec::with_capacity(n);
    let mut ready: Vec<usize> = Vec::new();
    let mut i: usize = 0;
    while i < n
        invariant
            i <= n <= u32::MAX,
            list == edges(*dep_graph),
            m == list.len(),
            indegree.len() == i,
            forall|k: int|
                0 <= k < i ==> #[trigger] indegree[k] == unmet(list, Seq::empty(), k, m),
            ready@.no_duplicates(),
            forall|x: usize| #[trigger]
                ready@.contains(x) <==> x < i && indegree[x as int] == 0,
        decreases n - i,
    {
        let incoming = incoming_neighbors(dep_graph, i);
        let degree: usize = incoming.len();
        proof {
            broadcast use vstd::seq_lib::group_to_multiset_ensures;

            assert(incoming@.to_multiset().len() == incoming@.len());
            assert(sources(list, i as int, m).to_multiset().len() == sources(
                list,
                i as int,
                m,
            ).len());
            lemma_unmet_all(list, i as int, m);
        }
        let ghost before = ready@;
        assert(!before.contains(i));
        indegree.push(degree);
        if degree == 0 {
            ready.push(i);
        }
        proof {
            assert forall|x: usize| #[trigger] ready@.contains(x) <==> x < i + 1 && indegree[x as int]
                == 0 by {
                if degree == 0 {
                    if ready@.contains(x) {
                        let k = choose|k: int| 0 <= k < ready@.len() && ready@[k] == x;
                        if k < before.len() {
                            assert(before.contains(x));
                        }
                    }
                    if x < i && indegree[x as int] == 0 {
                        assert(before.contains(x));
                        let k = choose|k: int| 0 <= k < before.len() && before[k] == x;
                        assert(ready@[k] == x);
                    }
                    if x == i {
                        assert(ready@[before.len() as int] == x);
                    }
                } else {
                    assert(before.contains(x) <==> x < i && indegree[x as int] == 0);
                }
            }
        }
        i = i + 1;
    }
    let mut order: Vec<usize> = Vec::with_capacity(n);
    let ghost mut emitted: Seq<int> = Seq::empty();
    while ready.len() > 0
        invariant
            n <= u32::MAX,
            n == weights.len(),
            list == edges(*dep_graph),
            weights == node_weights(*dep_graph),
            m == list.len(),
            forall|e: int| 0 <= e < list.len() ==> (#[trigger] list[e]).0 < n && list[e].1 < n,
            indegree.len() == n,
            forall|k: int| 0 <= k < n ==> #[trigger] indegree[k] == unmet(list, emitted, k, m),
            ready@.no_duplicates(),
            forall|x: usize| #[trigger]
                ready@.contains(x) <==> x < n && indegree[x as int] == 0 && !emitted.contains(
                    x as int,
                ),
            forall|x: int| emitted.contains(x) && 0 <= x < n ==> #[trigger] indegree[x] == 0,
            emits_least_ready(list, n as int, emitted),
            order@ == weights_of(weights, emitted),
        decreases n - emitted.len(),
    {
        let ghost before = emitted;
        let ghost pool = ready@;
        let v: usize = take_least(&mut ready);
        proof {
            lemma_unmet_zero(list, before, v as int, m);
            assert(is_ready(list, n as int, before, v as int));
            assert forall|j: int| is_ready(list, n as int, before, j) implies v <= j by {
                lemma_unmet_zero(list, before, j, m);
                let x = j as usize;
                assert(indegree[j] == 0);
                assert(pool.contains(x));
                let k = choose|k: int| 0 <= k < pool.len() && pool[k] == x;
                assert(v <= pool[k]);
            }
            emitted = before.push(v as int);
            assert forall|k: int| 0 <= k < emitted.len() implies ({
                &&& is_ready(list, n as int, emitted.take(k), #[trigger] emitted[k])
                &&& forall|i: int|
                    is_ready(list, n as int, emitted.take(k), i) ==> emitted[k] <= i
            }) by {
                if k < before.len() {
                    assert(emitted.take(k) =~= before.take(k));
                    assert(emitted[k] == before[k]);
                } else {
                    assert(emitted.take(k) =~= before);
                }
            }
            lemma_emission_distinct(list, n as int, emitted);
            lemma_distinct_below(emitted, n as int);
        }
        order.push(node_weight(dep_graph, v));
        proof {
            assert(order@ =~= weights_of(weights, emitted));
        }
        let outs = outgoing_neighbors(dep_graph, v);
        proof {
            lemma_targets_in_range(list, v as int, m, n as int, outs@);
            assert forall|x: int| 0 <= x < n implies #[trigger] unmet(list, before, x, m) == unmet(
                list,
                emitted,
                x,
                m,
            ) + occurrences(outs@, x, outs@.len()) by {
                lemma_unmet_step(list, before, v as int, x, m);
                lemma_targets_links(list, v as int, x as usize, m);
                lemma_occurrences_count(outs@, x as usize, outs@.len());
                assert(outs@.take(outs@.len() as int) =~= outs@);
            }
            assert forall|x: usize| #[trigger] ready@.contains(x) <==> x < n && indegree[x as int]
                == 0 && !emitted.contains(x as int) by {
                lemma_push_contains(before, v as int, x as int);
            }
            assert forall|x: int| emitted.contains(x) && 0 <= x < n implies #[trigger] indegree[x]
                == 0 by {
                lemma_push_contains(before, v as int, x);
            }
        }
        let mut k: usize = 0;
        while k < outs.len()
            invariant
                k <= outs.len(),
                n <= u32::MAX,
                indegree.len() == n,
                m == list.len(),
                forall|j: int| 0 <= j < outs.len() ==> #[trigger] outs[j] < n,
                forall|x: int|
                    0 <= x < n ==> #[trigger] indegree[x] + occurrences(outs@, x, k as nat)
                        == unmet(list, emitted, x, m) + occurrences(outs@, x, outs@.len()),
                ready@.no_duplicates(),
                emitted == before.push(v as int),
                forall|x: usize| #[trigger]
                    ready@.contains(x) <==> x < n && indegree[x as int] == 0 && !emitted.contains(
                        x as int,
                    ),
                forall|x: int| emitted.contains(x) && 0 <= x < n ==> #[trigger] indegree[x] == 0,
            decreases outs.len() - k,
        {
            let t: usize = outs[k];
            proof {
                lemma_occurrences_monotone(outs@, t as int, (k + 1) as nat, outs@.len());
                assert(indegree[t as int] > 0);
            }
            let ghost ready_before = ready@;
            let ghost degrees_before = indegree@;
            let left: usize = indegree[t] - 1;
            indegree.set(t, left);
            if left == 0 {
                ready.push(t);
            }
            proof {
                assert forall|x: int| 0 <= x < n implies #[trigger] indegree[x] + occurrences(
                    outs@,
                    x,
                    (k + 1) as nat,
                ) == unmet(list, emitted, x, m) + occurrences(outs@, x, outs@.len()) by {
                    assert(degrees_before[x] + occurrences(outs@, x, k as nat) == unmet(
                        list,
                        emitted,
                        x,
                        m,
                    ) + occurrences(outs@, x, outs@.len()));
                }
                assert(!ready_before.contains(t));
                assert(!emitted.contains(t as int)) by {
                    if emitted.contains(t as int) {
                        assert(degrees_before[t as int] == 0);
                    }
                }
                assert forall|x: usize| #[trigger] ready@.contains(x) <==> x < n
                    && indegree[x as int] == 0 && !emitted.contains(x as int) by {
                    if left == 0 {
                        if ready@.contains(x) {
                            let q = choose|q: int| 0 <= q < ready@.len() && ready@[q] == x;
                            if q < ready_before.len() {
                                assert(ready_before.contains(x));
                            }
                        }
                        if x == t {
                            assert(ready@[ready_before.len() as int] == t);
                        } else if ready_before.contains(x) {
                            let q = choose|q: int|
                                0 <= q < ready_before.len() && ready_before[q] == x;
                            assert(ready@[q] == x);
                        }
                    }
                }
            }
            k = k + 1;
        }
    }
    proof {
        assert forall|j: int| !is_ready(list, n as int, emitted, j) by {
            if is_ready(list, n as int, emitted, j) {
                lemma_unmet_zero(list, emitted, j, m);
                let x = j as usize;
                assert(ready@.contains(x));
            }
        }
        lemma_emission_distinct(list, n as int, emitted);
        lemma_distinct_below(emitted, n as int);
        assert(order@.len() == emitted.len());
    }
    if order.len() != n {
        proof {
            lemma_stuck_is_cyclic(list, n as int, emitted);
        }
        return Err(
            SrError::new_custom(
                String::from_str("render graph dependency graph contains a cycle"),
            ),
        );
    }
    proof {
        lemma_order_is_acyclic(list, n as int, emitted);
        assert(schedules(weights, list, emitted, order@));
    }
    Ok(order)
}

proof fn lemma_occurrences_monotone(list: Seq<usize>, x: int, a: nat, b: nat)
    requires
        a <= b,
    ensures
        occurrences(list, x, a) <= occurrences(list, x, b),
    decreases b,
{
    if a < b {
        lemma_occurrences_monotone(list, x, a, (b - 1) as nat);
    }
}

} // verus!
