//! The hazard scan: what a list of passes says about lifetimes, ordering and
//! grouping.
use std::collections::{BTreeMap, HashMap};

use petgraph::graph::DiGraph;
use vstd::prelude::*;

use crate::render_graph::access::{PassResourceAccessType, ResourceRef};
use crate::render_graph::components::{
    are_components, find_components, touched_by, PassComponent,
};
use crate::render_graph::dep_graph::{
    add_edge, add_node, edge_weight_mut, edges, empty_graph, find_edge, leads, node_weights,
};
use crate::render_graph::schedule::Edges;

verus! {

broadcast use {
    vstd::std_specs::hash::group_hash_axioms,
    vstd::std_specs::btree::group_btree_axioms,
};

/// What a pass declares: the resources it reads, then those it writes.
pub type PassDecl = (Vec<ResourceRef>, Vec<ResourceRef>);

/// Per-resource lifetime and ordered list of touches. The lifetime is inclusive: the
/// resource must be live from `first_pass` through `last_pass`.
#[derive(Debug)]
pub struct ResourceLifetimeUsage {
    pub first_pass: usize,
    pub last_pass: usize,
    pub usages: Vec<(usize, PassResourceAccessType)>,
}

// ---------------------------------------------------------------------------
// Touches and hazards
// ---------------------------------------------------------------------------

/// One access of one pass to one resource.
pub struct Touch {
    pub pass: usize,
    pub id: u32,
    pub write: bool,
    pub access: PassResourceAccessType,
}

/// The touches that one list of a pass declares.
pub open spec fn listed_touches(refs: Seq<ResourceRef>, pass: usize, write: bool) -> Seq<Touch> {
    Seq::new(
        refs.len(),
        |i: int| Touch { pass, id: refs[i].id, write, access: refs[i].access },
    )
}

/// All touches of the first `n` passes in order, each pass's reads before its writes.
pub open spec fn touches(passes: Seq<PassDecl>, n: nat) -> Seq<Touch>
    decreases n,
{
    if n == 0 {
        Seq::empty()
    } else {
        touches(passes, (n - 1) as nat) + listed_touches(
            passes[n - 1].0@,
            (n - 1) as usize,
            false,
        ) + listed_touches(passes[n - 1].1@, (n - 1) as usize, true)
    }
}

/// Who touches a resource, in order.
pub open spec fn usages_of(t: Seq<Touch>, id: u32) -> Seq<(usize, PassResourceAccessType)>
    decreases t.len(),
{
    if t.len() == 0 {
        Seq::empty()
    } else {
        let rest = usages_of(t.drop_last(), id);
        if t.last().id == id {
            rest.push((t.last().pass, t.last().access))
        } else {
            rest
        }
    }
}

/// The pass that wrote a resource last.
pub open spec fn last_writer(t: Seq<Touch>, id: u32) -> Option<usize>
    decreases t.len(),
{
    if t.len() == 0 {
        None
    } else if t.last().id == id && t.last().write {
        Some(t.last().pass)
    } else {
        last_writer(t.drop_last(), id)
    }
}

/// The passes that read a resource since it was last written, in order.
pub open spec fn readers_since_write(t: Seq<Touch>, id: u32) -> Seq<usize>
    decreases t.len(),
{
    if t.len() == 0 {
        Seq::empty()
    } else if t.last().id == id {
        if t.last().write {
            Seq::empty()
        } else {
            readers_since_write(t.drop_last(), id).push(t.last().pass)
        }
    } else {
        readers_since_write(t.drop_last(), id)
    }
}

/// The passes that a touch must wait for: a read for the last writer; a write for
/// all readers since the last write, or for that write if nobody read it.
pub open spec fn awaited(t: Seq<Touch>, x: Touch) -> Seq<usize> {
    let writer = match last_writer(t, x.id) {
        Some(w) => seq![w],
        None => Seq::empty(),
    };
    if x.write && readers_since_write(t, x.id).len() > 0 {
        readers_since_write(t, x.id)
    } else {
        writer
    }
}

/// The first edge at or behind `from` that leads from `a` to `b`.
pub open spec fn edge_between(list: Edges, a: usize, b: usize, from: int) -> Option<int>
    decreases list.len() - from,
{
    if from < 0 || from >= list.len() {
        None
    } else if list[from].0 == a && list[from].1 == b {
        Some(from)
    } else {
        edge_between(list, a, b, from + 1)
    }
}

/// `list` with the dependency of pass `b` on pass `a` through a resource added. A
/// pass does not depend on itself; one edge carries all resources of its two passes.
pub open spec fn with_dependency(list: Edges, a: usize, b: usize, id: u32) -> Edges {
    if a == b {
        list
    } else {
        match edge_between(list, a, b, 0) {
            Some(e) => if list[e].2.contains(id) {
                list
            } else {
                list.update(e, (a, b, list[e].2.push(id)))
            },
            None => list.push((a, b, seq![id])),
        }
    }
}

/// `list` with the dependencies of pass `b` on the first `n` of `from` added.
pub open spec fn with_dependencies(list: Edges, from: Seq<usize>, n: nat, b: usize, id: u32) -> Edges
    decreases n,
{
    if n == 0 {
        list
    } else {
        with_dependency(with_dependencies(list, from, (n - 1) as nat, b, id), from[n - 1], b, id)
    }
}

/// The edges that a list of touches demands, in the order in which they come up.
pub open spec fn dep_edges(t: Seq<Touch>) -> Edges
    decreases t.len(),
{
    if t.len() == 0 {
        Seq::empty()
    } else {
        let from = awaited(t.drop_last(), t.last());
        with_dependencies(
            dep_edges(t.drop_last()),
            from,
            from.len(),
            t.last().pass,
            t.last().id,
        )
    }
}

/// The passes that wrote what pass `p` reads, in the order in which they come up.
pub open spec fn producers_of(t: Seq<Touch>, p: int) -> Seq<usize>
    decreases t.len(),
{
    if t.len() == 0 {
        Seq::empty()
    } else {
        let rest = producers_of(t.drop_last(), p);
        let x = t.last();
        match last_writer(t.drop_last(), x.id) {
            Some(w) if x.pass == p && !x.write && w != p && !rest.contains(w) => rest.push(w),
            _ => rest,
        }
    }
}

/// No two edges lead from the same pass to the same pass.
pub open spec fn no_parallel_edges(list: Edges) -> bool {
    forall|e: int, f: int| #![trigger list[e], list[f]]
        0 <= e < f < list.len() ==> !(list[e].0 == list[f].0 && list[e].1 == list[f].1)
}

pub proof fn lemma_edge_between(list: Edges, a: usize, b: usize, from: int)
    requires
        0 <= from,
    ensures
        match edge_between(list, a, b, from) {
            Some(e) => from <= e && leads(list, e, a as int, b as int),
            None => forall|e: int| from <= e ==> !leads(list, e, a as int, b as int),
        },
    decreases list.len() - from,
{
    if from < list.len() && !(list[from].0 == a && list[from].1 == b) {
        lemma_edge_between(list, a, b, from + 1);
        if edge_between(list, a, b, from + 1) is None {
            assert forall|e: int| from <= e implies !leads(list, e, a as int, b as int) by {
                if e > from {
                    assert(from + 1 <= e);
                }
            }
        }
    }
}

proof fn lemma_with_dependency(list: Edges, a: usize, b: usize, id: u32)
    requires
        no_parallel_edges(list),
    ensures
        no_parallel_edges(with_dependency(list, a, b, id)),
        list.len() <= with_dependency(list, a, b, id).len(),
{
    lemma_edge_between(list, a, b, 0);
    let out = with_dependency(list, a, b, id);
    if a != b {
        match edge_between(list, a, b, 0) {
            Some(e) => {
                assert forall|f: int, g: int| #![trigger out[f], out[g]]
                    0 <= f < g < out.len() implies !(out[f].0 == out[g].0 && out[f].1
                    == out[g].1) by {
                    assert(out[f].0 == list[f].0 && out[f].1 == list[f].1);
                    assert(out[g].0 == list[g].0 && out[g].1 == list[g].1);
                }
            },
            None => {
                assert forall|f: int, g: int| #![trigger out[f], out[g]]
                    0 <= f < g < out.len() implies !(out[f].0 == out[g].0 && out[f].1
                    == out[g].1) by {
                    assert(out[f] == list[f]);
                    if g < list.len() {
                        assert(out[g] == list[g]);
                    } else {
                        assert(!leads(list, f, a as int, b as int));
                    }
                }
            },
        }
    }
}

proof fn lemma_with_dependencies(list: Edges, from: Seq<usize>, n: nat, b: usize, id: u32)
    requires
        no_parallel_edges(list),
    ensures
        no_parallel_edges(with_dependencies(list, from, n, b, id)),
        list.len() <= with_dependencies(list, from, n, b, id).len(),
    decreases n,
{
    if n > 0 {
        lemma_with_dependencies(list, from, (n - 1) as nat, b, id);
        lemma_with_dependency(
            with_dependencies(list, from, (n - 1) as nat, b, id),
            from[n - 1],
            b,
            id,
        );
    }
}

proof fn lemma_with_dependencies_grows(
    list: Edges,
    from: Seq<usize>,
    n: nat,
    m: nat,
    b: usize,
    id: u32,
)
    requires
        no_parallel_edges(list),
        n <= m,
    ensures
        with_dependencies(list, from, n, b, id).len() <= with_dependencies(
            list,
            from,
            m,
            b,
            id,
        ).len(),
    decreases m,
{
    if n < m {
        lemma_with_dependencies_grows(list, from, n, (m - 1) as nat, b, id);
        lemma_with_dependencies(list, from, (m - 1) as nat, b, id);
        lemma_with_dependency(
            with_dependencies(list, from, (m - 1) as nat, b, id),
            from[m - 1],
            b,
            id,
        );
    }
}

proof fn lemma_dep_edges(t: Seq<Touch>)
    ensures
        no_parallel_edges(dep_edges(t)),
    decreases t.len(),
{
    if t.len() > 0 {
        lemma_dep_edges(t.drop_last());
        let from = awaited(t.drop_last(), t.last());
        lemma_with_dependencies(
            dep_edges(t.drop_last()),
            from,
            from.len(),
            t.last().pass,
            t.last().id,
        );
    }
}

proof fn lemma_dep_edges_grow(t: Seq<Touch>, n: int)
    requires
        0 <= n <= t.len(),
    ensures
        dep_edges(t.take(n)).len() <= dep_edges(t).len(),
    decreases t.len(),
{
    if n < t.len() {
        let rest = t.drop_last();
        lemma_dep_edges_grow(rest, n);
        assert(rest.take(n) =~= t.take(n));
        lemma_dep_edges(rest);
        let from = awaited(rest, t.last());
        lemma_with_dependencies(dep_edges(rest), from, from.len(), t.last().pass, t.last().id);
    } else {
        assert(t.take(n) =~= t);
    }
}

/// Passes that touches name, and that touches wait for, are below `n`.
pub open spec fn passes_below(t: Seq<Touch>, n: int) -> bool {
    forall|i: int| 0 <= i < t.len() ==> (#[trigger] t[i]).pass < n
}

pub proof fn lemma_hazards_below(t: Seq<Touch>, id: u32, n: int)
    requires
        passes_below(t, n),
    ensures
        last_writer(t, id) matches Some(w) ==> w < n,
        forall|k: int|
            0 <= k < readers_since_write(t, id).len() ==> #[trigger] readers_since_write(t, id)[k]
                < n,
    decreases t.len(),
{
    if t.len() > 0 {
        let rest = t.drop_last();
        assert forall|i: int| 0 <= i < rest.len() implies (#[trigger] rest[i]).pass < n by {
            assert(t[i].pass < n);
        }
        assert(t[t.len() - 1].pass < n);
        lemma_hazards_below(rest, id, n);
        let few = readers_since_write(rest, id);
        let all = readers_since_write(t, id);
        assert forall|k: int| 0 <= k < all.len() implies #[trigger] all[k] < n by {
            if k < few.len() {
                assert(few[k] < n);
            }
        }
    }
}

/// Where hazards on one resource stand during the scan.
pub struct ResourceHazardState {
    pub last_writer: Option<usize>,
    pub readers_since_write: Vec<usize>,
}

/// The scan so far.
struct Scan {
    usages: BTreeMap<u32, ResourceLifetimeUsage>,
    hazards: HashMap<u32, ResourceHazardState>,
    graph: DiGraph<usize, Vec<u32>>,
    producers: Vec<Vec<usize>>,
}

/// Whether the entry for a resource is what its touches say.
pub open spec fn usage_matches(u: ResourceLifetimeUsage, t: Seq<Touch>, id: u32) -> bool {
    let list = usages_of(t, id);
    &&& list.len() > 0
    &&& u.usages@ == list
    &&& u.first_pass == list[0].0
    &&& u.last_pass == list.last().0
}

/// Whether `usages` holds exactly the touched resources, each with its touches.
pub open spec fn usages_match(usages: Map<u32, ResourceLifetimeUsage>, t: Seq<Touch>) -> bool {
    forall|id: u32|
        (#[trigger] usages.contains_key(id) <==> usages_of(t, id).len() > 0) && (usages.contains_key(
            id,
        ) ==> usage_matches(usages[id], t, id))
}

spec fn hazards_match(hazards: Map<u32, ResourceHazardState>, t: Seq<Touch>) -> bool {
    forall|id: u32| #[trigger] hazard_matches(hazards, t, id)
}

spec fn hazard_matches(hazards: Map<u32, ResourceHazardState>, t: Seq<Touch>, id: u32) -> bool {
    if hazards.contains_key(id) {
        &&& hazards[id].last_writer == last_writer(t, id)
        &&& hazards[id].readers_since_write@ == readers_since_write(t, id)
    } else {
        &&& last_writer(t, id) is None
        &&& readers_since_write(t, id).len() == 0
    }
}

/// Whether `producers` lists what each of `n` passes reads from.
pub open spec fn producers_match(producers: Seq<Vec<usize>>, t: Seq<Touch>, n: int) -> bool {
    &&& producers.len() == n
    &&& forall|p: int| 0 <= p < n ==> (#[trigger] producers[p])@ == producers_of(t, p)
}

/// Nodes `0..n`, each carrying its own index.
pub open spec fn counts_up(weights: Seq<usize>, n: int) -> bool {
    weights.len() == n && forall|i: int| 0 <= i < n ==> #[trigger] weights[i] == i
}

impl Scan {
    spec fn matches(self, t: Seq<Touch>, n: int) -> bool {
        &&& usages_match(self.usages@, t)
        &&& hazards_match(self.hazards@, t)
        &&& counts_up(node_weights(self.graph), n)
        &&& edges(self.graph) == dep_edges(t)
        &&& producers_match(self.producers@, t, n)
    }
}

/// Notes one touch of a resource in its lifetime.
fn record_usage(
    usages: &mut BTreeMap<u32, ResourceLifetimeUsage>,
    res_id: u32,
    pass_id: usize,
    access: PassResourceAccessType,
    Ghost(t): Ghost<Seq<Touch>>,
    Ghost(x): Ghost<Touch>,
)
    requires
        usages_match(old(usages)@, t),
        x.pass == pass_id,
        x.id == res_id,
        x.access == access,
    ensures
        usages_match(final(usages)@, t.push(x)),
{
    let ghost before = usages@;
    proof {
        assert(t.push(x).drop_last() =~= t);
        assert(before.contains_key(res_id) <==> usages_of(t, res_id).len() > 0);
        assert(before.contains_key(res_id) ==> usage_matches(before[res_id], t, res_id));
        assert(usages_of(t.push(x), res_id) == usages_of(t, res_id).push((pass_id, access)));
    }
    let entry = match usages.remove(&res_id) {
        Some(mut u) => {
            u.last_pass = pass_id;
            u.usages.push((pass_id, access));
            u
        },
        None => {
            let mut list: Vec<(usize, PassResourceAccessType)> = Vec::new();
            list.push((pass_id, access));
            ResourceLifetimeUsage { first_pass: pass_id, last_pass: pass_id, usages: list }
        },
    };
    usages.insert(res_id, entry);
    proof {
        assert(entry.usages@ =~= usages_of(t.push(x), res_id));
        assert(usage_matches(entry, t.push(x), res_id));
        assert forall|id: u32|
            (#[trigger] usages@.contains_key(id) <==> usages_of(t.push(x), id).len() > 0) && (
            usages@.contains_key(id) ==> usage_matches(usages@[id], t.push(x), id)) by {
            if id != res_id {
                assert(before.contains_key(id) <==> usages_of(t, id).len() > 0);
                assert(usages_of(t.push(x), id) == usages_of(t, id));
            }
        }
    }
}

/// Makes pass `dst` wait for pass `src` on account of a resource.
///
/// A pass that reads then writes its own resource produces a self-edge; the hazard
/// is already serialized by the pass itself, so it is skipped. One edge carries all
/// the resources of its two passes.
fn add_dep_edge(graph: &mut DiGraph<usize, Vec<u32>>, src: usize, dst: usize, res_id: u32)
    requires
        src < node_weights(*old(graph)).len(),
        dst < node_weights(*old(graph)).len(),
        node_weights(*old(graph)).len() < u32::MAX,
        no_parallel_edges(edges(*old(graph))),
        with_dependency(edges(*old(graph)), src, dst, res_id).len() <= u32::MAX,
    ensures
        node_weights(*final(graph)) == node_weights(*old(graph)),
        edges(*final(graph)) == with_dependency(edges(*old(graph)), src, dst, res_id),
{
    let ghost list = edges(*graph);
    proof {
        lemma_edge_between(list, src, dst, 0);
        lemma_with_dependency(list, src, dst, res_id);
    }
    if src == dst {
        return;
    }
    match find_edge(graph, src, dst) {
        Some(e) => {
            proof {
                let f = edge_between(list, src, dst, 0)->0;
                assert(leads(list, e as int, src as int, dst as int));
                assert(leads(list, f, src as int, dst as int));
                if e < f {
                    assert(!(list[e as int].0 == list[f].0 && list[e as int].1 == list[f].1));
                }
                if f < e {
                    assert(!(list[f].0 == list[e as int].0 && list[f].1 == list[e as int].1));
                }
                assert(f == e);
            }
            let weight = edge_weight_mut(graph, e);
            if !contains_id(weight, res_id) {
                weight.push(res_id);
            } else {
                proof {
                    assert(list.update(e as int, list[e as int]) =~= list);
                }
            }
        },
        None => {
            let mut weight: Vec<u32> = Vec::new();
            weight.push(res_id);
            proof {
                assert(weight@ =~= seq![res_id]);
            }
            let _ = add_edge(graph, src, dst, weight);
        },
    }
}

/// Is `id` one of `list`?
pub(crate) fn contains_id(list: &Vec<u32>, id: u32) -> (r: bool)
    ensures
        r == list@.contains(id),
{
    let mut i: usize = 0;
    while i < list.len()
        invariant
            i <= list.len(),
            forall|k: int| 0 <= k < i ==> list[k] != id,
        decreases list.len() - i,
    {
        if list[i] == id {
            return true;
        }
        i = i + 1;
    }
    false
}

/// Makes pass `dst` wait for every one of `from` on account of a resource.
fn add_dep_edges(
    graph: &mut DiGraph<usize, Vec<u32>>,
    from: &Vec<usize>,
    dst: usize,
    res_id: u32,
)
    requires
        forall|i: int|
            0 <= i < from.len() ==> #[trigger] from[i] < node_weights(*old(graph)).len(),
        dst < node_weights(*old(graph)).len(),
        node_weights(*old(graph)).len() < u32::MAX,
        no_parallel_edges(edges(*old(graph))),
        with_dependencies(edges(*old(graph)), from@, from@.len(), dst, res_id).len() <= u32::MAX,
    ensures
        node_weights(*final(graph)) == node_weights(*old(graph)),
        edges(*final(graph)) == with_dependencies(
            edges(*old(graph)),
            from@,
            from@.len(),
            dst,
            res_id,
        ),
{
    let ghost list = edges(*graph);
    let ghost weights = node_weights(*graph);
    let mut k: usize = 0;
    while k < from.len()
        invariant
            k <= from.len(),
            forall|i: int| 0 <= i < from.len() ==> #[trigger] from[i] < weights.len(),
            dst < weights.len() < u32::MAX,
            node_weights(*graph) == weights,
            no_parallel_edges(list),
            edges(*graph) == with_dependencies(list, from@, k as nat, dst, res_id),
            with_dependencies(list, from@, from@.len(), dst, res_id).len() <= u32::MAX,
        decreases from.len() - k,
    {
        proof {
            lemma_with_dependencies(list, from@, k as nat, dst, res_id);
            lemma_with_dependencies_grows(
                list,
                from@,
                (k + 1) as nat,
                from@.len(),
                dst,
                res_id,
            );
        }
        add_dep_edge(graph, from[k], dst, res_id);
        k = k + 1;
    }
}

/// Takes one touch into the scan.
fn scan_touch(
    scan: &mut Scan,
    pass_id: usize,
    res: ResourceRef,
    write: bool,
    Ghost(t): Ghost<Seq<Touch>>,
)
    requires
        old(scan).matches(t, old(scan).producers@.len() as int),
        passes_below(t, old(scan).producers@.len() as int),
        pass_id < old(scan).producers@.len() < u32::MAX,
        dep_edges(
            t.push(Touch { pass: pass_id, id: res.id, write, access: res.access }),
        ).len() <= u32::MAX,
    ensures
        final(scan).matches(
            t.push(Touch { pass: pass_id, id: res.id, write, access: res.access }),
            old(scan).producers@.len() as int,
        ),
        final(scan).producers@.len() == old(scan).producers@.len(),
{
    let ghost n = scan.producers@.len() as int;
    let ghost x = Touch { pass: pass_id, id: res.id, write, access: res.access };
    let ghost more = t.push(x);
    let ghost hazards_before = scan.hazards@;
    let ghost producers_before = scan.producers@;
    proof {
        assert(more.drop_last() =~= t);
        assert(more.last() == x);
        assert(hazard_matches(hazards_before, t, res.id));
        lemma_hazards_below(t, res.id, n);
        lemma_dep_edges(t);
    }
    record_usage(&mut scan.usages, res.id, pass_id, res.access, Ghost(t), Ghost(x));
    let mut state = match scan.hazards.remove(&res.id) {
        Some(state) => state,
        None => ResourceHazardState { last_writer: None, readers_since_write: Vec::new() },
    };
    assert(state.readers_since_write@ =~= readers_since_write(t, res.id));
    let ghost from = awaited(t, x);
    let ghost empty = Seq::<usize>::empty();
    if write && state.readers_since_write.len() > 0 {
        assert(from == state.readers_since_write@);
        add_dep_edges(&mut scan.graph, &state.readers_since_write, pass_id, res.id);
    } else {
        if let Some(writer) = state.last_writer {
            proof {
                assert(from =~= seq![writer]);
                reveal_with_fuel(with_dependencies, 2);
            }
            add_dep_edge(&mut scan.graph, writer, pass_id, res.id);
            // Same condition as the edge above, minus the self-edge case: a pass that
            // reads its own write depends on nothing external.
            if !write && writer != pass_id && !contains_index(&scan.producers[pass_id], writer) {
                scan.producers[pass_id].push(writer);
            }
        } else {
            proof {
                assert(from =~= empty);
            }
        }
    }
    if write {
        state.last_writer = Some(pass_id);
        state.readers_since_write.clear();
    } else {
        state.readers_since_write.push(pass_id);
    }
    assert(state.readers_since_write@ =~= readers_since_write(more, res.id));
    scan.hazards.insert(res.id, state);
    proof {
        assert forall|id: u32| #[trigger] hazard_matches(scan.hazards@, more, id) by {
            if id != res.id {
                assert(hazard_matches(hazards_before, t, id));
            }
        }
        assert forall|p: int| 0 <= p < n implies (#[trigger] scan.producers@[p])@ == producers_of(
            more,
            p,
        ) by {
            assert(producers_before[p]@ == producers_of(t, p));
        }
    }
}

/// Is `i` one of `list`?
pub(crate) fn contains_index(list: &Vec<usize>, i: usize) -> (r: bool)
    ensures
        r == list@.contains(i),
{
    let mut k: usize = 0;
    while k < list.len()
        invariant
            k <= list.len(),
            forall|j: int| 0 <= j < k ==> list[j] != i,
        decreases list.len() - k,
    {
        if list[k] == i {
            return true;
        }
        k = k + 1;
    }
    false
}

// ---------------------------------------------------------------------------
// The scan as a whole
// ---------------------------------------------------------------------------

/// Everything the hazard scan derives from a pass list: per-resource lifetimes, the
/// pass dependency graph, and the components that aliasing is computed within.
pub struct PassAnalysis {
    pub resource_usages: BTreeMap<u32, ResourceLifetimeUsage>,
    /// Node `i` is pass `i`; an edge carries the resources whose hazards forced it.
    pub dep_graph: DiGraph<usize, Vec<u32>>,
    pub components: Vec<PassComponent>,
    /// Per pass, the passes that wrote the data it reads (read-after-write only). The
    /// incoming edges of `dep_graph` also carry write-after-read and
    /// write-after-write ordering; those point from a dead reader to a live writer,
    /// so liveness must not follow them or a dead pass resurrects itself.
    pub raw_producers: Vec<Vec<usize>>,
}

impl PassAnalysis {
    /// Whether this is what the scan derives from `passes`.
    pub open spec fn derives_from(self, passes: Seq<PassDecl>) -> bool {
        let t = touches(passes, passes.len());
        let n = passes.len() as int;
        &&& usages_match(self.resource_usages@, t)
        &&& counts_up(node_weights(self.dep_graph), n)
        &&& edges(self.dep_graph) == dep_edges(t)
        &&& are_components(self.components@, n, self.resource_usages@)
        &&& producers_match(self.raw_producers@, t, n)
    }
}

/// Whether the graph of a pass list can be numbered with 32-bit indices.
pub open spec fn analyzable(passes: Seq<PassDecl>) -> bool {
    passes.len() < u32::MAX && dep_edges(touches(passes, passes.len())).len() <= u32::MAX
}

pub proof fn lemma_touches_below(passes: Seq<PassDecl>, n: nat)
    requires
        n <= passes.len() <= usize::MAX,
    ensures
        passes_below(touches(passes, n), n as int),
    decreases n,
{
    if n > 0 {
        lemma_touches_below(passes, (n - 1) as nat);
        let rest = touches(passes, (n - 1) as nat);
        let t = touches(passes, n);
        assert forall|i: int| 0 <= i < t.len() implies (#[trigger] t[i]).pass < n by {
            if i < rest.len() {
                assert(t[i] == rest[i]);
                assert(rest[i].pass < n - 1);
            }
        }
    }
}

proof fn lemma_touches_prefix(passes: Seq<PassDecl>, n: nat, m: nat)
    requires
        n <= m,
    ensures
        touches(passes, n).len() <= touches(passes, m).len(),
        touches(passes, m).take(touches(passes, n).len() as int) == touches(passes, n),
    decreases m,
{
    if n < m {
        lemma_touches_prefix(passes, n, (m - 1) as nat);
        let mid = touches(passes, (m - 1) as nat);
        let all = touches(passes, m);
        let k = touches(passes, n).len() as int;
        assert(all.take(k) =~= mid.take(k));
    } else {
        assert(touches(passes, m).take(touches(passes, n).len() as int) =~= touches(passes, n));
    }
}

pub proof fn lemma_usage_in_range(t: Seq<Touch>, id: u32, n: int)
    requires
        passes_below(t, n),
    ensures
        forall|k: int| 0 <= k < usages_of(t, id).len() ==> (#[trigger] usages_of(t, id)[k]).0 < n,
    decreases t.len(),
{
    if t.len() > 0 {
        let rest = t.drop_last();
        assert forall|i: int| 0 <= i < rest.len() implies (#[trigger] rest[i]).pass < n by {
            assert(t[i].pass < n);
        }
        lemma_usage_in_range(rest, id, n);
        let few = usages_of(rest, id);
        let all = usages_of(t, id);
        assert(t[t.len() - 1].pass < n);
        assert forall|k: int| 0 <= k < all.len() implies (#[trigger] all[k]).0 < n by {
            if k < few.len() {
                assert(few[k].0 < n);
            }
        }
    }
}

/// Takes one list of a pass into the scan.
fn scan_list(
    scan: &mut Scan,
    pass_id: usize,
    refs: &Vec<ResourceRef>,
    write: bool,
    Ghost(t): Ghost<Seq<Touch>>,
    Ghost(all): Ghost<Seq<Touch>>,
)
    requires
        old(scan).matches(t, old(scan).producers@.len() as int),
        passes_below(t, old(scan).producers@.len() as int),
        pass_id < old(scan).producers@.len() < u32::MAX,
        ({
            let more = t + listed_touches(refs@, pass_id, write);
            more.len() <= all.len() && all.take(more.len() as int) == more
        }),
        dep_edges(all).len() <= u32::MAX,
    ensures
        final(scan).matches(
            t + listed_touches(refs@, pass_id, write),
            old(scan).producers@.len() as int,
        ),
        final(scan).producers@.len() == old(scan).producers@.len(),
        passes_below(
            t + listed_touches(refs@, pass_id, write),
            old(scan).producers@.len() as int,
        ),
{
    let ghost n = scan.producers@.len() as int;
    let ghost listed = listed_touches(refs@, pass_id, write);
    let mut k: usize = 0;
    proof {
        assert(t + listed.take(0) =~= t);
    }
    while k < refs.len()
        invariant
            k <= refs.len(),
            listed == listed_touches(refs@, pass_id, write),
            scan.producers@.len() == n,
            pass_id < n < u32::MAX,
            scan.matches(t + listed.take(k as int), n),
            passes_below(t + listed.take(k as int), n),
            (t + listed).len() <= all.len(),
            all.take((t + listed).len() as int) == t + listed,
            dep_edges(all).len() <= u32::MAX,
        decreases refs.len() - k,
    {
        let ghost few = t + listed.take(k as int);
        let ghost more = t + listed.take(k + 1);
        let ghost x = Touch {
            pass: pass_id,
            id: refs[k as int].id,
            write,
            access: refs[k as int].access,
        };
        proof {
            assert(more =~= few.push(x));
            assert(all.take(more.len() as int) =~= more) by {
                assert((t + listed).take(more.len() as int) =~= more);
                assert(all.take((t + listed).len() as int).take(more.len() as int) =~= all.take(
                    more.len() as int,
                ));
            }
            lemma_dep_edges_grow(all, more.len() as int);
        }
        scan_touch(scan, pass_id, refs[k], write, Ghost(few));
        proof {
            assert forall|i: int| 0 <= i < more.len() implies (#[trigger] more[i]).pass < n by {
                if i < few.len() {
                    assert(more[i] == few[i]);
                    assert(few[i].pass < n);
                }
            }
        }
        k = k + 1;
    }
    proof {
        assert(listed.take(k as int) =~= listed);
    }
}

/// Single linear walk over the passes in declaration order, building lifetimes and
/// hazard edges, then the components: passes that share a resource end up in one.
pub fn analyze_passes(passes: &Vec<PassDecl>) -> (analysis: PassAnalysis)
    requires
        analyzable(passes@),
    ensures
        analysis.derives_from(passes@),
{
    let pass_count: usize = passes.len();
    let mut graph = empty_graph();
    let mut producers: Vec<Vec<usize>> = Vec::with_capacity(pass_count);
    let mut i: usize = 0;
    while i < pass_count
        invariant
            i <= pass_count < u32::MAX,
            producers.len() == i,
            forall|p: int| 0 <= p < i ==> (#[trigger] producers[p])@.len() == 0,
            counts_up(node_weights(graph), i as int),
            edges(graph).len() == 0,
        decreases pass_count - i,
    {
        let _ = add_node(&mut graph, i);
        producers.push(Vec::new());
        i = i + 1;
    }
    let mut scan = Scan {
        usages: BTreeMap::new(),
        hazards: HashMap::new(),
        graph,
        producers,
    };
    let ghost n = pass_count as int;
    let ghost all = touches(passes@, passes@.len());
    proof {
        let t = Seq::<Touch>::empty();
        assert(edges(scan.graph) =~= dep_edges(t));
        assert forall|p: int| 0 <= p < n implies (#[trigger] scan.producers@[p])@ == producers_of(
            t,
            p,
        ) by {
            assert(scan.producers@[p]@ =~= producers_of(t, p));
        }
        assert forall|id: u32| #[trigger] hazard_matches(scan.hazards@, t, id) by {}
        assert(scan.matches(t, n));
    }
    let mut p: usize = 0;
    while p < pass_count
        invariant
            p <= pass_count < u32::MAX,
            pass_count == passes.len(),
            n == pass_count,
            scan.producers@.len() == n,
            all == touches(passes@, passes@.len()),
            scan.matches(touches(passes@, p as nat), n),
            passes_below(touches(passes@, p as nat), n),
            dep_edges(all).len() <= u32::MAX,
        decreases pass_count - p,
    {
        let ghost t = touches(passes@, p as nat);
        let ghost reads = listed_touches(passes@[p as int].0@, p, false);
        let ghost writes = listed_touches(passes@[p as int].1@, p, true);
        let ghost next = touches(passes@, (p + 1) as nat);
        proof {
            assert(next == t + reads + writes);
            lemma_touches_prefix(passes@, (p + 1) as nat, passes@.len());
            assert(all.take((t + reads).len() as int) =~= t + reads) by {
                assert(next.take((t + reads).len() as int) =~= t + reads);
                assert(all.take(next.len() as int).take((t + reads).len() as int) =~= all.take(
                    (t + reads).len() as int,
                ));
            }
        }
        let (read, write) = &passes[p];
        scan_list(&mut scan, p, read, false, Ghost(t), Ghost(all));
        scan_list(&mut scan, p, write, true, Ghost(t + reads), Ghost(all));
        p = p + 1;
    }
    proof {
        let usages = scan.usages@;
        assert forall|id: u32, k: int| #![trigger usages[id].usages@[k]]
            usages.contains_key(id) && 0 <= k < usages[id].usages@.len() implies usages[id].usages@[k].0
            < n by {
            assert(usage_matches(usages[id], all, id));
            lemma_usage_in_range(all, id, n);
        }
        assert forall|id: u32| #[trigger] usages.contains_key(id) implies touched_by(
            usages,
            id,
            usages[id].first_pass as int,
        ) by {
            assert(usage_matches(usages[id], all, id));
            assert(usages[id].usages@[0].0 == usages[id].first_pass);
        }
    }
    let components = find_components(pass_count, &scan.usages);
    PassAnalysis {
        resource_usages: scan.usages,
        dep_graph: scan.graph,
        components,
        raw_producers: scan.producers,
    }
}

} // verus!
