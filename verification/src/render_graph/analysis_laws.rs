//! What the hazard scan guarantees.
use vstd::prelude::*;

use crate::render_graph::analysis::{
    awaited, counts_up, dep_edges, edge_between, last_writer, lemma_edge_between, passes_below,
    producers_of, readers_since_write, touches, usage_matches, usages_match, usages_of,
    with_dependencies, with_dependency, PassDecl, Touch,
};
use crate::render_graph::components::{connected, lemma_share_connected, touched_by};
use crate::render_graph::dep_graph::leads;
use crate::render_graph::predecessors::Usages;
use crate::render_graph::schedule::{
    emits_least_ready, is_acyclic, is_ready, is_schedule, ranks_edges, schedules, Edges,
};

verus! {

/// Touches come in the order of their passes.
pub open spec fn in_pass_order(t: Seq<Touch>) -> bool {
    forall|i: int, j: int| #![trigger t[i], t[j]]
        0 <= i <= j < t.len() ==> t[i].pass <= t[j].pass
}

/// Every edge leads from an earlier pass to a later one.
pub open spec fn leads_forward(list: Edges) -> bool {
    forall|e: int| 0 <= e < list.len() ==> (#[trigger] list[e]).0 < list[e].1
}

/// The touches of a pass list come in the order of their passes.
pub proof fn lemma_touches_in_order(passes: Seq<PassDecl>, n: nat)
    requires
        n <= passes.len() <= usize::MAX,
    ensures
        in_pass_order(touches(passes, n)),
        passes_below(touches(passes, n), n as int),
    decreases n,
{
    if n > 0 {
        let m = (n - 1) as nat;
        lemma_touches_in_order(passes, m);
        let rest = touches(passes, m);
        let t = touches(passes, n);
        assert forall|i: int| 0 <= i < t.len() implies (#[trigger] t[i]).pass < n && (i
            >= rest.len() ==> t[i].pass == m) by {
            if i < rest.len() {
                assert(t[i] == rest[i]);
                assert(rest[i].pass < m);
            }
        }
        assert forall|i: int, j: int| #![trigger t[i], t[j]] 0 <= i <= j < t.len() implies t[i].pass
            <= t[j].pass by {
            if j < rest.len() {
                assert(t[i] == rest[i] && t[j] == rest[j]);
            }
        }
    }
}

proof fn lemma_awaited_bounded(t: Seq<Touch>, id: u32, bound: int)
    requires
        forall|i: int| 0 <= i < t.len() ==> (#[trigger] t[i]).pass <= bound,
    ensures
        last_writer(t, id) matches Some(w) ==> w <= bound,
        forall|k: int|
            0 <= k < readers_since_write(t, id).len() ==> #[trigger] readers_since_write(t, id)[k]
                <= bound,
    decreases t.len(),
{
    if t.len() > 0 {
        let rest = t.drop_last();
        assert forall|i: int| 0 <= i < rest.len() implies (#[trigger] rest[i]).pass <= bound by {
            assert(t[i].pass <= bound);
        }
        assert(t[t.len() - 1].pass <= bound);
        lemma_awaited_bounded(rest, id, bound);
        let few = readers_since_write(rest, id);
        let all = readers_since_write(t, id);
        assert forall|k: int| 0 <= k < all.len() implies #[trigger] all[k] <= bound by {
            if k < few.len() {
                assert(few[k] <= bound);
            }
        }
    }
}

proof fn lemma_dependency_forward(list: Edges, a: usize, b: usize, id: u32)
    requires
        leads_forward(list),
        a <= b,
    ensures
        leads_forward(with_dependency(list, a, b, id)),
{
    let out = with_dependency(list, a, b, id);
    if edge_between(list, a, b, 0) is Some {
        lemma_edge_found(list, a, b, 0);
    }
    assert forall|e: int| 0 <= e < out.len() implies (#[trigger] out[e]).0 < out[e].1 by {
        if e < list.len() {
            assert(list[e].0 < list[e].1);
        }
    }
}

proof fn lemma_dependencies_forward(list: Edges, from: Seq<usize>, n: nat, b: usize, id: u32)
    requires
        leads_forward(list),
        n <= from.len(),
        forall|k: int| 0 <= k < from.len() ==> #[trigger] from[k] <= b,
    ensures
        leads_forward(with_dependencies(list, from, n, b, id)),
    decreases n,
{
    if n > 0 {
        lemma_dependencies_forward(list, from, (n - 1) as nat, b, id);
        assert(from[n - 1] <= b);
        lemma_dependency_forward(
            with_dependencies(list, from, (n - 1) as nat, b, id),
            from[n - 1],
            b,
            id,
        );
    }
}

/// Hazards only ever produce edges from an earlier pass to a later one.
pub proof fn law_edges_lead_forward(t: Seq<Touch>)
    requires
        in_pass_order(t),
    ensures
        leads_forward(dep_edges(t)),
    decreases t.len(),
{
    if t.len() > 0 {
        let rest = t.drop_last();
        let x = t.last();
        assert forall|i: int, j: int| #![trigger rest[i], rest[j]]
            0 <= i <= j < rest.len() implies rest[i].pass <= rest[j].pass by {
            assert(t[i].pass <= t[j].pass);
        }
        law_edges_lead_forward(rest);
        assert forall|i: int| 0 <= i < rest.len() implies (#[trigger] rest[i]).pass <= x.pass by {
            assert(t[i].pass <= t[t.len() - 1].pass);
        }
        lemma_awaited_bounded(rest, x.id, x.pass as int);
        let from = awaited(rest, x);
        lemma_dependencies_forward(dep_edges(rest), from, from.len(), x.pass, x.id);
    }
}

/// The pass graph of any pass list has no cycle, and its schedule runs the passes in
/// the order of their declaration.
pub proof fn law_schedule_is_declaration_order(
    passes: Seq<PassDecl>,
    weights: Seq<usize>,
    schedule: Seq<usize>,
)
    requires
        passes.len() <= usize::MAX,
        counts_up(weights, passes.len() as int),
    ensures
        is_acyclic(dep_edges(touches(passes, passes.len())), passes.len() as int),
        is_schedule(weights, dep_edges(touches(passes, passes.len())), schedule) ==> counts_up(
            schedule,
            passes.len() as int,
        ),
{
    let n = passes.len() as int;
    let t = touches(passes, passes.len());
    let list = dep_edges(t);
    lemma_touches_in_order(passes, passes.len());
    law_edges_lead_forward(t);
    lemma_edges_below(t, n);
    let rank = Seq::new(n as nat, |i: int| i);
    assert forall|e: int| 0 <= e < list.len() implies rank[(#[trigger] list[e]).0 as int]
        < rank[list[e].1 as int] by {}
    assert(ranks_edges(list, n, rank));
    if is_schedule(weights, list, schedule) {
        let order = choose|order: Seq<int>| #[trigger] schedules(weights, list, order, schedule);
        assert forall|k: int| 0 <= k < n implies #[trigger] order[k] == k by {
            lemma_forward_order(list, n, order, k);
        }
        assert forall|k: int| 0 <= k < n implies #[trigger] schedule[k] == k by {
            assert(order[k] == k);
        }
    }
}

proof fn lemma_forward_order(list: Edges, n: int, order: Seq<int>, k: int)
    requires
        leads_forward(list),
        order.len() == n,
        emits_least_ready(list, n, order),
        0 <= k < n,
    ensures
        forall|j: int| 0 <= j <= k ==> #[trigger] order[j] == j,
    decreases k,
{
    if k > 0 {
        lemma_forward_order(list, n, order, k - 1);
    }
    let before = order.take(k);
    assert forall|i: int| 0 <= i < k implies before.contains(i) by {
        assert(order[i] == i);
        assert(before[i] == i);
    }
    assert(is_ready(list, n, before, k)) by {
        if before.contains(k) {
            let i = choose|i: int| 0 <= i < before.len() && before[i] == k;
            assert(order[i] == i);
        }
        assert forall|e: int| 0 <= e < list.len() && (#[trigger] list[e]).1 == k implies before.contains(
            list[e].0 as int,
        ) by {
            assert(list[e].0 < list[e].1);
        }
    }
    assert(is_ready(list, n, before, order[k]));
    assert(order[k] <= k);
    if order[k] < k {
        assert(before.contains(order[k]));
    }
}

proof fn lemma_edges_below(t: Seq<Touch>, n: int)
    requires
        passes_below(t, n),
    ensures
        forall|e: int|
            0 <= e < dep_edges(t).len() ==> (#[trigger] dep_edges(t)[e]).0 < n
                && dep_edges(t)[e].1 < n,
    decreases t.len(),
{
    if t.len() > 0 {
        let rest = t.drop_last();
        let x = t.last();
        assert forall|i: int| 0 <= i < rest.len() implies (#[trigger] rest[i]).pass < n by {
            assert(t[i].pass < n);
        }
        assert(t[t.len() - 1].pass < n);
        lemma_edges_below(rest, n);
        lemma_awaited_bounded(rest, x.id, n - 1);
        let from = awaited(rest, x);
        lemma_dependencies_below(dep_edges(rest), from, from.len(), x.pass, x.id, n);
    }
}

proof fn lemma_dependencies_below(
    list: Edges,
    from: Seq<usize>,
    k: nat,
    b: usize,
    id: u32,
    n: int,
)
    requires
        k <= from.len(),
        b < n,
        forall|e: int| 0 <= e < list.len() ==> (#[trigger] list[e]).0 < n && list[e].1 < n,
        forall|i: int| 0 <= i < from.len() ==> #[trigger] from[i] < n,
    ensures
        forall|e: int|
            0 <= e < with_dependencies(list, from, k, b, id).len() ==> (
            #[trigger] with_dependencies(list, from, k, b, id)[e]).0 < n && with_dependencies(
                list,
                from,
                k,
                b,
                id,
            )[e].1 < n,
    decreases k,
{
    if k > 0 {
        lemma_dependencies_below(list, from, (k - 1) as nat, b, id, n);
        let prev = with_dependencies(list, from, (k - 1) as nat, b, id);
        let out = with_dependencies(list, from, k, b, id);
        assert(from[k - 1] < n);
        if edge_between(prev, from[k - 1], b, 0) is Some {
            lemma_edge_found(prev, from[k - 1], b, 0);
        }
        assert forall|e: int| 0 <= e < out.len() implies (#[trigger] out[e]).0 < n && out[e].1 < n by {
            if e < prev.len() {
                assert(prev[e].0 < n && prev[e].1 < n);
            }
        }
    }
}

// ---------------------------------------------------------------------------
// Every hazard is ordered
// ---------------------------------------------------------------------------

/// Whether the `k`-th pass of a path has an edge to the next.
pub open spec fn leads_at(list: Edges, path: Seq<int>, k: int) -> bool {
    exists|e: int| #[trigger] leads(list, e, path[k], path[k + 1])
}

/// Whether edges lead along a path from `a` to `b`.
pub open spec fn is_directed_path(list: Edges, path: Seq<int>, a: int, b: int) -> bool {
    &&& path.len() > 0
    &&& path[0] == a
    &&& path[path.len() - 1] == b
    &&& forall|k: int| 0 <= k < path.len() - 1 ==> #[trigger] leads_at(list, path, k)
}

/// Whether pass `b` comes to wait for pass `a`, or is the same.
pub open spec fn ordered_before(list: Edges, a: int, b: int) -> bool {
    exists|path: Seq<int>| #[trigger] is_directed_path(list, path, a, b)
}

proof fn lemma_ordered_self(list: Edges, a: int)
    ensures
        ordered_before(list, a, a),
{
    assert(is_directed_path(list, seq![a], a, a));
}

proof fn lemma_ordered_edge(list: Edges, e: int, a: int, b: int)
    requires
        leads(list, e, a, b),
    ensures
        ordered_before(list, a, b),
{
    let path = seq![a, b];
    let k: int = 0;
    assert(path[k] == a && path[k + 1] == b);
    assert(leads(list, e, path[k], path[k + 1]));
    assert(leads_at(list, path, k));
    assert(is_directed_path(list, path, a, b));
}

proof fn lemma_ordered_transitive(list: Edges, x: int, y: int, z: int)
    requires
        ordered_before(list, x, y),
        ordered_before(list, y, z),
    ensures
        ordered_before(list, x, z),
{
    let a = choose|path: Seq<int>| #[trigger] is_directed_path(list, path, x, y);
    let b = choose|path: Seq<int>| #[trigger] is_directed_path(list, path, y, z);
    let n = a.len();
    let path = Seq::new(
        (n + b.len() - 1) as nat,
        |i: int|
            if i < n {
                a[i]
            } else {
                b[i - n + 1]
            },
    );
    assert forall|k: int| 0 <= k < path.len() - 1 implies #[trigger] leads_at(list, path, k) by {
        if k < n - 1 {
            assert(leads_at(list, a, k));
            let e = choose|e: int| #[trigger] leads(list, e, a[k], a[k + 1]);
            assert(leads(list, e, path[k], path[k + 1]));
        } else {
            assert(leads_at(list, b, k - n + 1));
            let e = choose|e: int| #[trigger] leads(list, e, b[k - n + 1], b[k - n + 2]);
            assert(leads(list, e, path[k], path[k + 1]));
        }
    }
    assert(is_directed_path(list, path, x, z));
}

/// Whether every edge of `list` is an edge of `more`, under the same index.
spec fn carries_on(list: Edges, more: Edges) -> bool {
    list.len() <= more.len() && forall|e: int|
        0 <= e < list.len() ==> (#[trigger] more[e]).0 == list[e].0 && more[e].1 == list[e].1
}

proof fn lemma_ordered_grows(list: Edges, more: Edges, a: int, b: int)
    requires
        carries_on(list, more),
        ordered_before(list, a, b),
    ensures
        ordered_before(more, a, b),
{
    let path = choose|path: Seq<int>| #[trigger] is_directed_path(list, path, a, b);
    assert forall|k: int| 0 <= k < path.len() - 1 implies #[trigger] leads_at(more, path, k) by {
        assert(leads_at(list, path, k));
        let e = choose|e: int| #[trigger] leads(list, e, path[k], path[k + 1]);
        assert(more[e].0 == list[e].0 && more[e].1 == list[e].1);
        assert(leads(more, e, path[k], path[k + 1]));
    }
    assert(is_directed_path(more, path, a, b));
}

proof fn lemma_edge_found(list: Edges, a: usize, b: usize, from: int)
    requires
        0 <= from,
        edge_between(list, a, b, from) is Some,
    ensures
        leads(list, edge_between(list, a, b, from)->0, a as int, b as int),
    decreases list.len() - from,
{
    if from < list.len() && !(list[from].0 == a && list[from].1 == b) {
        lemma_edge_found(list, a, b, from + 1);
    }
}

proof fn lemma_dependency_added(list: Edges, a: usize, b: usize, id: u32)
    ensures
        carries_on(list, with_dependency(list, a, b, id)),
        a != b ==> exists|e: int| #[trigger]
            leads(with_dependency(list, a, b, id), e, a as int, b as int),
{
    let out = with_dependency(list, a, b, id);
    if a != b {
        match edge_between(list, a, b, 0) {
            Some(e) => {
                lemma_edge_found(list, a, b, 0);
                assert(leads(out, e, a as int, b as int));
            },
            None => {
                assert(leads(out, list.len() as int, a as int, b as int));
            },
        }
    }
}

proof fn lemma_dependencies_added(list: Edges, from: Seq<usize>, n: nat, b: usize, id: u32)
    requires
        n <= from.len(),
    ensures
        carries_on(list, with_dependencies(list, from, n, b, id)),
        forall|k: int|
            0 <= k < n ==> ordered_before(
                with_dependencies(list, from, n, b, id),
                #[trigger] from[k] as int,
                b as int,
            ),
    decreases n,
{
    if n > 0 {
        let m = (n - 1) as nat;
        lemma_dependencies_added(list, from, m, b, id);
        let prev = with_dependencies(list, from, m, b, id);
        let out = with_dependencies(list, from, n, b, id);
        lemma_dependency_added(prev, from[n - 1], b, id);
        assert forall|e: int| 0 <= e < list.len() implies (#[trigger] out[e]).0 == list[e].0
            && out[e].1 == list[e].1 by {
            assert(prev[e].0 == list[e].0 && prev[e].1 == list[e].1);
        }
        assert forall|k: int| 0 <= k < n implies ordered_before(
            out,
            #[trigger] from[k] as int,
            b as int,
        ) by {
            if k < m {
                lemma_ordered_grows(prev, out, from[k] as int, b as int);
            } else if from[k] == b {
                lemma_ordered_self(out, b as int);
            } else {
                let e = choose|e: int| #[trigger] leads(out, e, from[k] as int, b as int);
                lemma_ordered_edge(out, e, from[k] as int, b as int);
            }
        }
    }
}

/// Two touches of one resource, at least one of which writes.
pub open spec fn conflict(t: Seq<Touch>, i: int, j: int) -> bool {
    &&& 0 <= i < j < t.len()
    &&& t[i].id == t[j].id
    &&& t[i].write || t[j].write
}

/// A read that no write of its resource has followed.
spec fn is_pending_read(t: Seq<Touch>, i: int) -> bool {
    &&& 0 <= i < t.len()
    &&& !t[i].write
    &&& forall|k: int| i < k < t.len() ==> !((#[trigger] t[k]).id == t[i].id && t[k].write)
}

proof fn lemma_pending_read_listed(t: Seq<Touch>, i: int)
    requires
        is_pending_read(t, i),
    ensures
        readers_since_write(t, t[i].id).contains(t[i].pass),
    decreases t.len(),
{
    let rest = t.drop_last();
    let n = t.len() - 1;
    let id = t[i].id;
    if i == n {
        let list = readers_since_write(t, id);
        assert(list[list.len() - 1] == t[i].pass);
    } else {
        assert(rest[i] == t[i]);
        assert forall|k: int| i < k < rest.len() implies !((#[trigger] rest[k]).id == rest[i].id
            && rest[k].write) by {
            assert(t[k] == rest[k]);
        }
        lemma_pending_read_listed(rest, i);
        assert(!(t[n].id == id && t[n].write));
        let few = readers_since_write(rest, id);
        let k = choose|k: int| 0 <= k < few.len() && few[k] == t[i].pass;
        assert(readers_since_write(t, id)[k] == t[i].pass);
    }
}

/// The last write of a resource, if it has one.
pub proof fn lemma_last_write(t: Seq<Touch>, id: u32) -> (k: int)
    ensures
        match last_writer(t, id) {
            Some(w) => 0 <= k < t.len() && t[k].id == id && t[k].write && t[k].pass == w && forall|
                j: int,
            |
                k < j < t.len() ==> !((#[trigger] t[j]).id == id && t[j].write),
            None => k == -1 && forall|j: int|
                0 <= j < t.len() ==> !((#[trigger] t[j]).id == id && t[j].write),
        },
    decreases t.len(),
{
    if t.len() == 0 {
        -1
    } else {
        let n = t.len() - 1;
        if t[n].id == id && t[n].write {
            n
        } else {
            let rest = t.drop_last();
            let k = lemma_last_write(rest, id);
            assert forall|j: int| 0 <= j < n implies #[trigger] t[j] == rest[j] by {}
            k
        }
    }
}

/// Every hazard is ordered: of two passes that touch one resource, at least one of
/// them writing it, the later waits for the earlier, directly or through others.
pub proof fn law_every_hazard_is_ordered(t: Seq<Touch>, i: int, j: int)
    requires
        conflict(t, i, j),
    ensures
        ordered_before(dep_edges(t), t[i].pass as int, t[j].pass as int),
    decreases t.len(), j - i,
{
    let n = t.len() - 1;
    let rest = t.drop_last();
    let x = t.last();
    let from = awaited(rest, x);
    let few = dep_edges(rest);
    let all = dep_edges(t);
    lemma_dependencies_added(few, from, from.len(), x.pass, x.id);
    if j < n {
        assert(rest[i] == t[i] && rest[j] == t[j]);
        law_every_hazard_is_ordered(rest, i, j);
        lemma_ordered_grows(few, all, t[i].pass as int, t[j].pass as int);
    } else {
        let id = x.id;
        let a = t[i].pass as int;
        let b = x.pass as int;
        assert(rest[i] == t[i]);
        let k = lemma_last_write(rest, id);
        if t[i].write {
            // Some write precedes, and the last one at or behind `i`.
            assert(last_writer(rest, id) is Some) by {
                if last_writer(rest, id) is None {
                    assert(!(rest[i].id == id && rest[i].write));
                }
            }
            assert(i <= k) by {
                if k < i {
                    assert(!(rest[i].id == id && rest[i].write));
                }
            }
            let w = t[k].pass as int;
            assert(rest[k] == t[k]);
            assert(ordered_before(all, a, w)) by {
                if i < k {
                    assert(conflict(rest, i, k));
                    law_every_hazard_is_ordered(rest, i, k);
                    lemma_ordered_grows(few, all, a, w);
                } else {
                    lemma_ordered_self(all, a);
                }
            }
            lemma_write_awaited(rest, x, k);
            if from.contains(t[k].pass) {
                let q = choose|q: int| 0 <= q < from.len() && from[q] == t[k].pass;
                assert(ordered_before(all, from[q] as int, b));
                lemma_ordered_transitive(all, a, w, b);
            } else {
                // The write awaits readers of `k`'s write instead.
                let r = lemma_reader_after(rest, id, k);
                assert(conflict(rest, k, r));
                law_every_hazard_is_ordered(rest, k, r);
                lemma_ordered_grows(few, all, w, rest[r].pass as int);
                let q = choose|q: int| 0 <= q < from.len() && from[q] == rest[r].pass;
                assert(ordered_before(all, from[q] as int, b));
                lemma_ordered_transitive(all, w, rest[r].pass as int, b);
                lemma_ordered_transitive(all, a, w, b);
            }
        } else {
            // `x` writes, and `i` reads.
            if k > i {
                assert(conflict(rest, i, k));
                law_every_hazard_is_ordered(rest, i, k);
                let w = rest[k].pass as int;
                lemma_ordered_grows(few, all, a, w);
                assert(t[k] == rest[k]);
                assert(conflict(t, k, j));
                law_every_hazard_is_ordered(t, k, j);
                lemma_ordered_transitive(all, a, w, b);
            } else {
                assert(is_pending_read(rest, i));
                lemma_pending_read_listed(rest, i);
                let readers = readers_since_write(rest, id);
                let q = choose|q: int| 0 <= q < readers.len() && readers[q] == rest[i].pass;
                assert(from == readers);
                assert(ordered_before(all, from[q] as int, b));
            }
        }
    }
}

/// A touch awaits the last write itself, unless it writes and that was read.
proof fn lemma_write_awaited(t: Seq<Touch>, x: Touch, k: int)
    requires
        0 <= k < t.len(),
        last_writer(t, x.id) == Some(t[k].pass),
    ensures
        awaited(t, x).contains(t[k].pass) || (x.write && readers_since_write(t, x.id).len() > 0
            && awaited(t, x) == readers_since_write(t, x.id)),
{
    if !(x.write && readers_since_write(t, x.id).len() > 0) {
        assert(awaited(t, x)[0] == t[k].pass);
    }
}

/// A reader behind the last write.
proof fn lemma_reader_after(t: Seq<Touch>, id: u32, k: int) -> (r: int)
    requires
        0 <= k < t.len(),
        t[k].id == id,
        t[k].write,
        forall|j: int| k < j < t.len() ==> !((#[trigger] t[j]).id == id && t[j].write),
        readers_since_write(t, id).len() > 0,
    ensures
        k < r < t.len(),
        t[r].id == id,
        !t[r].write,
        readers_since_write(t, id).contains(t[r].pass),
    decreases t.len(),
{
    let n = t.len() - 1;
    let list = readers_since_write(t, id);
    if t[n].id == id {
        assert(!t[n].write) by {
            if k < n {
                assert(!(t[n].id == id && t[n].write));
            }
        }
        assert(list[list.len() - 1] == t[n].pass);
        n
    } else {
        let rest = t.drop_last();
        assert forall|j: int| k < j < rest.len() implies !((#[trigger] rest[j]).id == id
            && rest[j].write) by {
            assert(t[j] == rest[j]);
        }
        assert(rest[k] == t[k]);
        let r = lemma_reader_after(rest, id, k);
        assert(t[r] == rest[r]);
        r
    }
}

// ---------------------------------------------------------------------------
// Components
// ---------------------------------------------------------------------------

/// Every touch stands in the list of its resource.
proof fn lemma_touch_is_listed(t: Seq<Touch>, i: int) -> (k: int)
    requires
        0 <= i < t.len(),
    ensures
        0 <= k < usages_of(t, t[i].id).len(),
        usages_of(t, t[i].id)[k].0 == t[i].pass,
    decreases t.len(),
{
    let rest = t.drop_last();
    if i == t.len() - 1 {
        usages_of(rest, t[i].id).len() as int
    } else {
        assert(rest[i] == t[i]);
        lemma_touch_is_listed(rest, i)
    }
}

proof fn lemma_touched(usages: Usages, t: Seq<Touch>, i: int)
    requires
        usages_match(usages, t),
        0 <= i < t.len(),
    ensures
        touched_by(usages, t[i].id, t[i].pass as int),
{
    let id = t[i].id;
    let k = lemma_touch_is_listed(t, i);
    assert(usages.contains_key(id));
    assert(usage_matches(usages[id], t, id));
    assert(usages[id].usages@[k].0 == t[i].pass);
}

/// Passes that touch a common resource end up in the same component, whether anybody
/// writes it or not.
pub proof fn law_sharing_a_resource_connects(usages: Usages, t: Seq<Touch>, i: int, j: int)
    requires
        usages_match(usages, t),
        0 <= i < t.len(),
        0 <= j < t.len(),
        t[i].id == t[j].id,
    ensures
        connected(usages, t[i].pass as int, t[j].pass as int),
{
    lemma_touched(usages, t, i);
    lemma_touched(usages, t, j);
    lemma_share_connected(usages, t[i].pass as int, t[j].pass as int);
}

/// Whether two passes touch a resource in common.
spec fn touch_in_common(t: Seq<Touch>, a: usize, b: usize) -> bool {
    exists|i: int, j: int|
        0 <= i < t.len() && 0 <= j < t.len() && (#[trigger] t[i]).pass == a && (
        #[trigger] t[j]).pass == b && t[i].id == t[j].id
}

spec fn edges_join_sharers(list: Edges, t: Seq<Touch>) -> bool {
    forall|e: int|
        0 <= e < list.len() ==> touch_in_common(t, (#[trigger] list[e]).0, list[e].1)
}

/// Whether a pass touches a resource.
spec fn touches_id(t: Seq<Touch>, id: u32, a: usize) -> bool {
    exists|i: int| 0 <= i < t.len() && (#[trigger] t[i]).pass == a && t[i].id == id
}

proof fn lemma_awaited_touch(t: Seq<Touch>, id: u32)
    ensures
        last_writer(t, id) matches Some(w) ==> touches_id(t, id, w),
        forall|k: int|
            0 <= k < readers_since_write(t, id).len() ==> touches_id(
                t,
                id,
                #[trigger] readers_since_write(t, id)[k],
            ),
    decreases t.len(),
{
    if t.len() > 0 {
        let rest = t.drop_last();
        let few = readers_since_write(rest, id);
        let all = readers_since_write(t, id);
        lemma_awaited_touch(rest, id);
        assert forall|a: usize| #[trigger] touches_id(rest, id, a) implies touches_id(t, id, a) by {
            let i = choose|i: int|
                0 <= i < rest.len() && (#[trigger] rest[i]).pass == a && rest[i].id == id;
            assert(t[i] == rest[i]);
        }
        assert(t[t.len() - 1].id == id ==> touches_id(t, id, t[t.len() - 1].pass));
        assert forall|k: int| 0 <= k < all.len() implies touches_id(t, id, #[trigger] all[k]) by {
            if k < few.len() {
                assert(touches_id(rest, id, few[k]));
            }
        }
    }
}

proof fn lemma_dependencies_join_sharers(
    list: Edges,
    from: Seq<usize>,
    n: nat,
    b: usize,
    id: u32,
    t: Seq<Touch>,
)
    requires
        edges_join_sharers(list, t),
        n <= from.len(),
        forall|k: int| 0 <= k < from.len() ==> touches_id(t, id, #[trigger] from[k]),
        touches_id(t, id, b),
    ensures
        edges_join_sharers(with_dependencies(list, from, n, b, id), t),
    decreases n,
{
    if n > 0 {
        lemma_dependencies_join_sharers(list, from, (n - 1) as nat, b, id, t);
        let before = with_dependencies(list, from, (n - 1) as nat, b, id);
        let out = with_dependencies(list, from, n, b, id);
        let a = from[n - 1];
        if edge_between(before, a, b, 0) is Some {
            lemma_edge_found(before, a, b, 0);
        }
        assert(touches_id(t, id, from[n - 1]));
        let i = choose|i: int| 0 <= i < t.len() && (#[trigger] t[i]).pass == a && t[i].id == id;
        let j = choose|j: int| 0 <= j < t.len() && (#[trigger] t[j]).pass == b && t[j].id == id;
        assert(touch_in_common(t, t[i].pass, t[j].pass));
        assert forall|e: int| 0 <= e < out.len() implies touch_in_common(
            t,
            (#[trigger] out[e]).0,
            out[e].1,
        ) by {
            if e < before.len() {
                assert(touch_in_common(t, before[e].0, before[e].1));
            }
        }
    }
}

proof fn lemma_edges_join_sharers(t: Seq<Touch>)
    ensures
        edges_join_sharers(dep_edges(t), t),
    decreases t.len(),
{
    if t.len() > 0 {
        let rest = t.drop_last();
        let x = t.last();
        let from = awaited(rest, x);
        let before = dep_edges(rest);
        lemma_edges_join_sharers(rest);
        lemma_awaited_touch(rest, x.id);
        assert forall|e: int| 0 <= e < before.len() implies touch_in_common(
            t,
            (#[trigger] before[e]).0,
            before[e].1,
        ) by {
            assert(touch_in_common(rest, before[e].0, before[e].1));
            let (i, j) = choose|i: int, j: int|
                0 <= i < rest.len() && 0 <= j < rest.len() && (#[trigger] rest[i]).pass
                    == before[e].0 && (#[trigger] rest[j]).pass == before[e].1 && rest[i].id
                    == rest[j].id;
            assert(t[i] == rest[i] && t[j] == rest[j]);
        }
        assert forall|k: int| 0 <= k < from.len() implies touches_id(
            t,
            x.id,
            #[trigger] from[k],
        ) by {
            assert(touches_id(rest, x.id, from[k]));
            let i = choose|i: int|
                0 <= i < rest.len() && (#[trigger] rest[i]).pass == from[k] && rest[i].id == x.id;
            assert(t[i] == rest[i]);
        }
        assert(t[t.len() - 1] == x);
        lemma_dependencies_join_sharers(before, from, from.len(), x.pass, x.id, t);
    }
}

/// Passes that an edge joins are in the same component: a component is never left by
/// following edges, in either direction.
pub proof fn law_edges_stay_in_their_component(usages: Usages, t: Seq<Touch>, e: int)
    requires
        usages_match(usages, t),
        0 <= e < dep_edges(t).len(),
    ensures
        connected(usages, dep_edges(t)[e].0 as int, dep_edges(t)[e].1 as int),
        connected(usages, dep_edges(t)[e].1 as int, dep_edges(t)[e].0 as int),
{
    lemma_edges_join_sharers(t);
    let a = dep_edges(t)[e].0;
    let b = dep_edges(t)[e].1;
    assert(touch_in_common(t, a, b));
    let (i, j) = choose|i: int, j: int|
        0 <= i < t.len() && 0 <= j < t.len() && (#[trigger] t[i]).pass == a && (
        #[trigger] t[j]).pass == b && t[i].id == t[j].id;
    law_sharing_a_resource_connects(usages, t, i, j);
    law_sharing_a_resource_connects(usages, t, j, i);
}

// ---------------------------------------------------------------------------
// How many edges there can be
// ---------------------------------------------------------------------------

/// How many reads no write has followed yet.
spec fn waiting(t: Seq<Touch>) -> int
    decreases t.len(),
{
    if t.len() == 0 {
        0
    } else if t.last().write {
        waiting(t.drop_last()) - readers_since_write(t.drop_last(), t.last().id).len()
    } else {
        waiting(t.drop_last()) + 1
    }
}

/// The readers since the last write of some resources, counted together.
spec fn readers_of(t: Seq<Touch>, ids: Seq<u32>) -> int
    decreases ids.len(),
{
    if ids.len() == 0 {
        0
    } else {
        readers_of(t, ids.drop_last()) + readers_since_write(t, ids.last()).len()
    }
}

proof fn lemma_readers_of_step(t: Seq<Touch>, ids: Seq<u32>)
    requires
        t.len() > 0,
        ids.no_duplicates(),
    ensures
        ({
            let rest = t.drop_last();
            let x = t.last();
            let change = if !ids.contains(x.id) {
                0int
            } else if x.write {
                -(readers_since_write(rest, x.id).len() as int)
            } else {
                1int
            };
            readers_of(t, ids) == readers_of(rest, ids) + change
        }),
    decreases ids.len(),
{
    if ids.len() > 0 {
        let fewer = ids.drop_last();
        let x = t.last();
        lemma_readers_of_step(t, fewer);
        assert(ids[ids.len() - 1] == ids.last());
        if ids.last() == x.id {
            assert(!fewer.contains(x.id));
        } else if fewer.contains(x.id) {
            let k = choose|k: int| 0 <= k < fewer.len() && fewer[k] == x.id;
            assert(ids[k] == x.id);
        } else if ids.contains(x.id) {
            let k = choose|k: int| 0 <= k < ids.len() && ids[k] == x.id;
            assert(fewer[k] == x.id);
        }
    }
}

proof fn lemma_waiting_covers(t: Seq<Touch>, ids: Seq<u32>)
    requires
        ids.no_duplicates(),
    ensures
        readers_of(t, ids) <= waiting(t),
    decreases t.len(), ids.len(),
{
    if t.len() == 0 {
        if ids.len() > 0 {
            lemma_waiting_covers(t, ids.drop_last());
        }
    } else {
        let rest = t.drop_last();
        let x = t.last();
        lemma_readers_of_step(t, ids);
        lemma_waiting_covers(rest, ids);
        if x.write && !ids.contains(x.id) {
            let more = ids.push(x.id);
            assert(more.drop_last() =~= ids);
            lemma_waiting_covers(rest, more);
        }
    }
}

proof fn lemma_dependencies_add_few(list: Edges, from: Seq<usize>, n: nat, b: usize, id: u32)
    ensures
        with_dependencies(list, from, n, b, id).len() <= list.len() + n,
    decreases n,
{
    if n > 0 {
        lemma_dependencies_add_few(list, from, (n - 1) as nat, b, id);
        lemma_edge_between(
            with_dependencies(list, from, (n - 1) as nat, b, id),
            from[n - 1],
            b,
            0,
        );
    }
}

proof fn lemma_edges_and_waiting(t: Seq<Touch>)
    ensures
        dep_edges(t).len() + waiting(t) <= 2 * t.len(),
        waiting(t) >= 0,
    decreases t.len(),
{
    lemma_waiting_covers(t, Seq::empty());
    if t.len() > 0 {
        let rest = t.drop_last();
        let x = t.last();
        lemma_edges_and_waiting(rest);
        let from = awaited(rest, x);
        lemma_dependencies_add_few(dep_edges(rest), from, from.len(), x.pass, x.id);
    }
}

/// There are at most two edges per declared access.
pub proof fn law_edges_are_few(t: Seq<Touch>)
    ensures
        dep_edges(t).len() <= 2 * t.len(),
{
    lemma_edges_and_waiting(t);
}

/// Whether some edge leads from `a` to `b`.
pub open spec fn has_edge(list: Edges, a: int, b: int) -> bool {
    exists|e: int| #[trigger] leads(list, e, a, b)
}

/// Whoever wrote the data a pass reads is joined to it by an edge: following producers
/// never leaves the pass graph.
pub proof fn law_producers_lead_to_their_readers(t: Seq<Touch>, p: int, k: int)
    requires
        0 <= k < producers_of(t, p).len(),
    ensures
        has_edge(dep_edges(t), producers_of(t, p)[k] as int, p),
        producers_of(t, p)[k] != p,
    decreases t.len(),
{
    let rest = t.drop_last();
    let x = t.last();
    let few = producers_of(rest, p);
    let w = producers_of(t, p)[k];
    let from = awaited(rest, x);
    let before = dep_edges(rest);
    let after = dep_edges(t);
    lemma_dependencies_added(before, from, from.len(), x.pass, x.id);
    if k < few.len() {
        law_producers_lead_to_their_readers(rest, p, k);
        let e = choose|e: int| #[trigger] leads(before, e, w as int, p);
        assert(leads(after, e, w as int, p));
    } else {
        assert(from == seq![w]);
        assert(after == with_dependency(with_dependencies(before, from, 0, x.pass, x.id), w, x.pass, x.id)) by {
            assert(after == with_dependencies(before, from, 1, x.pass, x.id));
        }
        lemma_dependency_added(before, w, x.pass, x.id);
    }
}

} // verus!
