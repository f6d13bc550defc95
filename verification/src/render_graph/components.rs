//! Which passes hang together by what they touch.
use std::collections::{BTreeMap, HashMap};

use petgraph::unionfind::UnionFind;
use vstd::prelude::*;

use crate::render_graph::analysis::ResourceLifetimeUsage;
use crate::render_graph::dep_graph::{
    into_labeling, representatives, singletons, together, unite,
};
use crate::render_graph::predecessors::Usages;
use crate::render_graph::sorting::{ascending_keys, strictly_ascending};

verus! {

broadcast use {
    vstd::std_specs::hash::group_hash_axioms,
    vstd::std_specs::btree::group_btree_axioms,
};

/// A set of passes that transitively share resources, plus the resource ids that those
/// passes touch. Passes that an edge of the dependency graph joins share a resource, so
/// they are in one component. Transient memory aliasing is computed independently per
/// component.
#[derive(Debug)]
pub struct PassComponent {
    pub passes: Vec<usize>,
    pub resources: Vec<u32>,
}

// ---------------------------------------------------------------------------
// Connectedness
// ---------------------------------------------------------------------------

/// Whether a pass touches a resource.
pub open spec fn touched_by(usages: Usages, id: u32, p: int) -> bool {
    usages.contains_key(id) && exists|k: int|
        0 <= k < usages[id].usages@.len() && (#[trigger] usages[id].usages@[k]).0 == p
}

/// Whether two passes touch a common resource.
pub open spec fn share(usages: Usages, x: int, y: int) -> bool {
    exists|id: u32| #[trigger] touched_by(usages, id, x) && touched_by(usages, id, y)
}

/// Whether the `k`-th pass of a path shares a resource with the next.
pub open spec fn share_at(usages: Usages, path: Seq<int>, k: int) -> bool {
    share(usages, path[k], path[k + 1])
}

/// Whether each pass of a path shares a resource with the next.
pub open spec fn is_path(usages: Usages, path: Seq<int>, x: int, y: int) -> bool {
    &&& path.len() > 0
    &&& path[0] == x
    &&& path[path.len() - 1] == y
    &&& forall|k: int| 0 <= k < path.len() - 1 ==> #[trigger] share_at(usages, path, k)
}

/// Whether two passes transitively share resources.
pub open spec fn connected(usages: Usages, x: int, y: int) -> bool {
    exists|path: Seq<int>| #[trigger] is_path(usages, path, x, y)
}

/// Connectedness is reflexive.
pub proof fn lemma_connected_self(usages: Usages, x: int)
    ensures
        connected(usages, x, x),
{
    assert(is_path(usages, seq![x], x, x));
}

/// Passes that share a resource are connected.
pub proof fn lemma_share_connected(usages: Usages, x: int, y: int)
    requires
        share(usages, x, y),
    ensures
        connected(usages, x, y),
{
    let path = seq![x, y];
    assert(share_at(usages, path, 0));
    assert(is_path(usages, path, x, y));
}

/// Connectedness is symmetric.
pub proof fn lemma_connected_symmetric(usages: Usages, x: int, y: int)
    requires
        connected(usages, x, y),
    ensures
        connected(usages, y, x),
{
    let path = choose|path: Seq<int>| #[trigger] is_path(usages, path, x, y);
    let n = path.len();
    let back = Seq::new(n, |i: int| path[n - 1 - i]);
    assert forall|k: int| 0 <= k < back.len() - 1 implies #[trigger] share_at(
        usages,
        back,
        k,
    ) by {
        assert(share_at(usages, path, n - 2 - k));
        let id = choose|id: u32| #[trigger]
            touched_by(usages, id, path[n - 2 - k]) && touched_by(usages, id, path[n - 2 - k + 1]);
        assert(touched_by(usages, id, back[k]) && touched_by(usages, id, back[k + 1]));
    }
    assert(is_path(usages, back, y, x));
}

/// Connectedness is transitive.
pub proof fn lemma_connected_transitive(usages: Usages, x: int, y: int, z: int)
    requires
        connected(usages, x, y),
        connected(usages, y, z),
    ensures
        connected(usages, x, z),
{
    let a = choose|path: Seq<int>| #[trigger] is_path(usages, path, x, y);
    let b = choose|path: Seq<int>| #[trigger] is_path(usages, path, y, z);
    let n = a.len();
    let path = Seq::new(
        (n + b.len() - 1) as nat,
        |i: int|
            if i < n {
                a[i]
            } else {
                b[i - n + 1]
            },
    );
    assert forall|k: int| 0 <= k < path.len() - 1 implies #[trigger] share_at(
        usages,
        path,
        k,
    ) by {
        if k < n - 1 {
            assert(share_at(usages, a, k));
        } else {
            assert(share_at(usages, b, k - n + 1));
        }
    }
    assert(is_path(usages, path, x, z));
}

/// Whether the labels of all passes that touch a resource are one.
spec fn one_label(usages: Usages, labels: Seq<usize>, id: u32) -> bool {
    forall|x: int, y: int| #[trigger]
        touched_by(usages, id, x) && #[trigger] touched_by(usages, id, y) ==> together(
            labels,
            x,
            y,
        )
}

/// Where the touchers of every resource have one label, so have the passes of a path.
proof fn lemma_path_has_one_label(
    usages: Usages,
    labels: Seq<usize>,
    path: Seq<int>,
    x: int,
    y: int,
)
    requires
        forall|id: u32| #[trigger] usages.contains_key(id) ==> one_label(usages, labels, id),
        is_path(usages, path, x, y),
    ensures
        together(labels, x, y),
    decreases path.len(),
{
    let n = path.len();
    if n > 1 {
        let z = path[n - 2];
        let front = path.drop_last();
        assert forall|k: int| 0 <= k < front.len() - 1 implies #[trigger] share_at(
            usages,
            front,
            k,
        ) by {
            assert(share_at(usages, path, k));
        }
        lemma_path_has_one_label(usages, labels, front, x, z);
        assert(share_at(usages, path, n - 2));
        let id = choose|id: u32| #[trigger]
            touched_by(usages, id, path[n - 2]) && touched_by(usages, id, path[n - 1]);
        assert(usages.contains_key(id));
        assert(together(labels, z, y));
    }
}

/// Every touch is by one of `n` passes.
pub open spec fn passes_inside(usages: Usages, n: int) -> bool {
    forall|id: u32, k: int| #![trigger usages[id].usages@[k]]
        usages.contains_key(id) && 0 <= k < usages[id].usages@.len() ==> usages[id].usages@[k].0
            < n
}

/// Gives the passes that touch a resource one label.
fn unite_touchers(
    sets: &mut UnionFind<usize>,
    usage: &ResourceLifetimeUsage,
    Ghost(usages): Ghost<Usages>,
    Ghost(id): Ghost<u32>,
)
    requires
        usages.contains_key(id),
        usages[id] == *usage,
        passes_inside(usages, representatives(*old(sets)).len() as int),
        forall|x: int, y: int| #[trigger]
            together(representatives(*old(sets)), x, y) && 0 <= x < representatives(
                *old(sets),
            ).len() && 0 <= y < representatives(*old(sets)).len() ==> connected(usages, x, y),
    ensures
        representatives(*final(sets)).len() == representatives(*old(sets)).len(),
        one_label(usages, representatives(*final(sets)), id),
        forall|x: int, y: int| #[trigger]
            together(representatives(*final(sets)), x, y) && 0 <= x < representatives(
                *final(sets),
            ).len() && 0 <= y < representatives(*final(sets)).len() ==> connected(usages, x, y),
        forall|x: int, y: int|
            0 <= x < representatives(*old(sets)).len() && 0 <= y < representatives(
                *old(sets),
            ).len() && together(representatives(*old(sets)), x, y) ==> #[trigger] together(
                representatives(*final(sets)),
                x,
                y,
            ),
{
    let ghost n = representatives(*sets).len();
    let ghost start = representatives(*sets);
    let ghost list = usage.usages@;
    let mut i: usize = 1;
    while i < usage.usages.len()
        invariant
            1 <= i,
            list == usage.usages@,
            usages.contains_key(id),
            usages[id] == *usage,
            representatives(*sets).len() == n,
            start.len() == n,
            passes_inside(usages, n as int),
            forall|x: int, y: int| #[trigger]
                together(representatives(*sets), x, y) && 0 <= x < n && 0 <= y < n ==> connected(
                    usages,
                    x,
                    y,
                ),
            forall|x: int, y: int|
                0 <= x < n && 0 <= y < n && together(start, x, y) ==> #[trigger] together(
                    representatives(*sets),
                    x,
                    y,
                ),
            forall|k: int|
                0 <= k < i && k < list.len() ==> together(
                    representatives(*sets),
                    list[0].0 as int,
                    (#[trigger] list[k]).0 as int,
                ),
        decreases usage.usages.len() - i,
    {
        let ghost before = representatives(*sets);
        let a: usize = usage.usages[0].0;
        let b: usize = usage.usages[i].0;
        proof {
            assert(usages[id].usages@[0].0 < n && usages[id].usages@[i as int].0 < n);
            assert(touched_by(usages, id, a as int) && touched_by(usages, id, b as int));
            lemma_share_connected(usages, a as int, b as int);
            lemma_connected_symmetric(usages, a as int, b as int);
        }
        unite(sets, a, b);
        proof {
            let after = representatives(*sets);
            assert forall|x: int, y: int| #[trigger]
                together(after, x, y) && 0 <= x < n && 0 <= y < n implies connected(
                usages,
                x,
                y,
            ) by {
                if !together(before, x, y) {
                    if together(before, x, a as int) && together(before, b as int, y) {
                        lemma_connected_transitive(usages, x, a as int, b as int);
                        lemma_connected_transitive(usages, x, b as int, y);
                    } else {
                        assert(together(before, x, b as int) && together(before, a as int, y));
                        lemma_connected_transitive(usages, x, b as int, a as int);
                        lemma_connected_transitive(usages, x, a as int, y);
                    }
                }
            }
            assert forall|k: int| 0 <= k < i + 1 && k < list.len() implies together(
                after,
                list[0].0 as int,
                (#[trigger] list[k]).0 as int,
            ) by {
                assert(usages[id].usages@[k].0 < n);
                if k < i {
                    assert(together(before, list[0].0 as int, list[k].0 as int));
                } else {
                    assert(together(before, a as int, a as int) && together(
                        before,
                        b as int,
                        b as int,
                    ));
                }
            }
        }
        i = i + 1;
    }
    proof {
        let after = representatives(*sets);
        assert forall|x: int, y: int| #[trigger]
            touched_by(usages, id, x) && #[trigger] touched_by(usages, id, y) implies together(
            after,
            x,
            y,
        ) by {
            let k = choose|k: int|
                0 <= k < list.len() && (#[trigger] usages[id].usages@[k]).0 == x;
            let m = choose|m: int|
                0 <= m < list.len() && (#[trigger] usages[id].usages@[m]).0 == y;
            assert(together(after, list[0].0 as int, list[k].0 as int));
            assert(together(after, list[0].0 as int, list[m].0 as int));
        }
    }
}

/// Labels `n` passes so that exactly those share a label that transitively share
/// resources.
fn label_passes(n: usize, usages: &BTreeMap<u32, ResourceLifetimeUsage>) -> (labels: Vec<usize>)
    requires
        passes_inside(usages@, n as int),
    ensures
        labels.len() == n,
        forall|x: int, y: int|
            0 <= x < labels.len() && 0 <= y < labels.len() ==> (#[trigger] together(
                labels@,
                x,
                y,
            ) <==> connected(usages@, x, y)),
{
    let mut sets = singletons(n);
    let keys = ascending_keys(usages);
    let mut k: usize = 0;
    proof {
        assert forall|x: int, y: int| #[trigger]
            together(representatives(sets), x, y) && 0 <= x < n && 0 <= y < n implies connected(
            usages@,
            x,
            y,
        ) by {
            lemma_connected_self(usages@, x);
        }
    }
    while k < keys.len()
        invariant
            k <= keys.len(),
            passes_inside(usages@, n as int),
            forall|id: u32| #[trigger] keys@.contains(id) <==> usages@.contains_key(id),
            representatives(sets).len() == n,
            forall|x: int, y: int| #[trigger]
                together(representatives(sets), x, y) && 0 <= x < n && 0 <= y < n ==> connected(
                    usages@,
                    x,
                    y,
                ),
            forall|j: int|
                0 <= j < k ==> one_label(usages@, representatives(sets), #[trigger] keys@[j]),
        decreases keys.len() - k,
    {
        let id: u32 = keys[k];
        let ghost before = representatives(sets);
        assert(keys@.contains(id));
        match usages.get(&id) {
            Some(usage) => {
                unite_touchers(&mut sets, usage, Ghost(usages@), Ghost(id));
                proof {
                    let after = representatives(sets);
                    assert forall|j: int| 0 <= j < k + 1 implies one_label(
                        usages@,
                        after,
                        #[trigger] keys@[j],
                    ) by {
                        if j < k {
                            assert(one_label(usages@, before, keys@[j]));
                            assert forall|x: int, y: int| #[trigger]
                                touched_by(usages@, keys@[j], x) && #[trigger] touched_by(
                                    usages@,
                                    keys@[j],
                                    y,
                                ) implies together(after, x, y) by {
                                let list = usages@[keys@[j]].usages@;
                                let a = choose|a: int|
                                    0 <= a < list.len() && (
                                    #[trigger] usages@[keys@[j]].usages@[a]).0 == x;
                                let b = choose|b: int|
                                    0 <= b < list.len() && (
                                    #[trigger] usages@[keys@[j]].usages@[b]).0 == y;
                                assert(together(before, x, y));
                            }
                        }
                    }
                }
            },
            None => {
                assert(false);
            },
        }
        k = k + 1;
    }
    let labels = into_labeling(sets);
    proof {
        assert forall|x: int, y: int|
            0 <= x < labels.len() && 0 <= y < labels.len() && connected(
                usages@,
                x,
                y,
            ) implies #[trigger] together(labels@, x, y) by {
            let path = choose|path: Seq<int>| #[trigger] is_path(usages@, path, x, y);
            assert forall|id: u32| #[trigger] usages@.contains_key(id) implies one_label(
                usages@,
                labels@,
                id,
            ) by {
                assert(keys@.contains(id));
                let j = choose|j: int| 0 <= j < keys@.len() && keys@[j] == id;
                assert(one_label(usages@, representatives(sets), keys@[j]));
                assert forall|u: int, v: int| #[trigger]
                    touched_by(usages@, id, u) && #[trigger] touched_by(
                        usages@,
                        id,
                        v,
                    ) implies together(labels@, u, v) by {
                    assert(together(representatives(sets), u, v));
                }
            }
            lemma_path_has_one_label(usages@, labels@, path, x, y);
        }
    }
    labels
}

// ---------------------------------------------------------------------------
// Grouping
// ---------------------------------------------------------------------------

/// Whether a list of passes is strictly ascending.
pub open spec fn ascending_passes(passes: Seq<usize>) -> bool {
    forall|i: int, j: int| #![trigger passes[i], passes[j]]
        0 <= i < j < passes.len() ==> passes[i] < passes[j]
}

/// Whether the passes of a component are some of `0..n`, at least one, in order.
pub open spec fn lists_passes(component: PassComponent, n: int) -> bool {
    &&& component.passes@.len() > 0
    &&& ascending_passes(component.passes@)
    &&& forall|i: int|
        0 <= i < component.passes@.len() ==> #[trigger] component.passes@[i] < n
}

/// Whether a pass of a component touches a resource.
pub open spec fn touched_within(component: PassComponent, usages: Usages, id: u32) -> bool {
    exists|p: usize| #[trigger]
        component.passes@.contains(p) && touched_by(usages, id, p as int)
}

/// Whether a component lists exactly the resources that its passes touch, which are those
/// that its passes are the first to touch.
pub open spec fn lists_resources(component: PassComponent, usages: Usages) -> bool {
    &&& strictly_ascending(component.resources@)
    &&& forall|id: u32| #[trigger]
        component.resources@.contains(id) <==> touched_within(component, usages, id)
    &&& forall|id: u32| #[trigger]
        component.resources@.contains(id) <==> usages.contains_key(id)
            && component.passes@.contains(usages[id].first_pass)
}

/// Whether `components` are passes `0..n` grouped by what they transitively share, in the
/// order of their first passes, with their resources.
pub open spec fn are_components(
    components: Seq<PassComponent>,
    n: int,
    usages: Usages,
) -> bool {
    &&& forall|c: int| 0 <= c < components.len() ==> lists_passes(#[trigger] components[c], n)
    &&& forall|p: int| 0 <= p < n ==> #[trigger] has_pass(components, p)
    &&& forall|c: int, i: int, d: int, j: int|
        #![trigger components[c].passes@[i], components[d].passes@[j]]
        0 <= c < components.len() && 0 <= i < components[c].passes@.len() && 0 <= d
            < components.len() && 0 <= j < components[d].passes@.len() ==> (connected(
            usages,
            components[c].passes@[i] as int,
            components[d].passes@[j] as int,
        ) <==> c == d)
    &&& forall|c: int, d: int| #![trigger components[c], components[d]]
        0 <= c < d < components.len() ==> components[c].passes@[0] < components[d].passes@[0]
    &&& forall|c: int|
        0 <= c < components.len() ==> lists_resources(#[trigger] components[c], usages)
}

/// Whether some component has the pass.
pub open spec fn has_pass(components: Seq<PassComponent>, p: int) -> bool {
    exists|c: int| #[trigger] component_has(components, c, p)
}

/// Whether component `c` has the pass.
pub open spec fn component_has(components: Seq<PassComponent>, c: int, p: int) -> bool {
    0 <= c < components.len() && components[c].passes@.contains(p as usize)
}

/// What grouping has established of the first `n` passes: component `c` holds those
/// with label `roots[c]`, and `index` finds it.
spec fn grouped_by_label(
    components: Seq<PassComponent>,
    roots: Seq<usize>,
    index: Map<usize, usize>,
    labels: Seq<usize>,
    n: int,
) -> bool {
    &&& components.len() == roots.len()
    &&& forall|l: usize| #[trigger]
        index.contains_key(l) ==> index[l] < roots.len() && roots[index[l] as int] == l
    &&& forall|c: int|
        0 <= c < roots.len() ==> index.contains_key(#[trigger] roots[c]) && index[roots[c]] == c
    &&& forall|c: int| 0 <= c < roots.len() ==> lists_passes(#[trigger] components[c], n)
    &&& forall|c: int, p: usize|
        0 <= c < roots.len() ==> (#[trigger] components[c].passes@.contains(p) <==> p < n
            && labels[p as int] == roots[c])
    &&& forall|p: int| 0 <= p < n ==> index.contains_key(#[trigger] labels[p])
    &&& forall|c: int, d: int| #![trigger components[c], components[d]]
        0 <= c < d < components.len() ==> components[c].passes@[0] < components[d].passes@[0]
}

/// Groups passes by label, in the order of their first passes.
fn group_passes(labels: &Vec<usize>) -> (grouped: (
    Vec<PassComponent>,
    HashMap<usize, usize>,
    Ghost<Seq<usize>>,
))
    ensures
        grouped_by_label(
            grouped.0@,
            grouped.2@,
            grouped.1@,
            labels@,
            labels@.len() as int,
        ),
        forall|c: int| 0 <= c < grouped.0.len() ==> (#[trigger] grouped.0[c]).resources@.len() == 0,
{
    let mut components: Vec<PassComponent> = Vec::new();
    let mut index: HashMap<usize, usize> = HashMap::new();
    let ghost mut roots: Seq<usize> = Seq::empty();
    let mut p: usize = 0;
    while p < labels.len()
        invariant
            p <= labels.len(),
            grouped_by_label(components@, roots, index@, labels@, p as int),
            forall|c: int|
                0 <= c < components.len() ==> (#[trigger] components[c]).resources@.len() == 0,
        decreases labels.len() - p,
    {
        let label: usize = labels[p];
        let ghost before = components@;
        let ghost roots_before = roots;
        let ghost index_before = index@;
        let found: Option<usize> = match index.get(&label) {
            Some(c) => Some(*c),
            None => None,
        };
        match found {
            Some(c) => {
                let ghost passes_before = before[c as int].passes@;
                components[c].passes.push(p);
                proof {
                    assert(components@[c as int].passes@ == passes_before.push(p));
                    assert forall|d: int| 0 <= d < roots.len() && d != c implies #[trigger] components@[d]
                        == before[d] by {}
                    assert(lists_passes(before[c as int], p as int));
                    assert forall|d: int, q: usize| 0 <= d < roots.len() implies (
                    #[trigger] components@[d].passes@.contains(q) <==> q < p + 1
                        && labels[q as int] == roots[d]) by {
                        assert(before[d].passes@.contains(q) <==> q < p && labels[q as int]
                            == roots[d]);
                        if d == c {
                            lemma_push_has(passes_before, p, q);
                        } else {
                            assert(roots[d] != roots[c as int]) by {
                                assert(index@[roots[d]] == d);
                                assert(index@[roots[c as int]] == c);
                            }
                        }
                    }
                    assert forall|d: int| 0 <= d < roots.len() implies lists_passes(
                        #[trigger] components@[d],
                        p + 1,
                    ) by {
                        assert(lists_passes(before[d], p as int));
                        assert forall|i: int| 0 <= i < components@[d].passes@.len() implies
                            #[trigger] components@[d].passes@[i] < p + 1 by {
                            if d == c {
                                if i < passes_before.len() {
                                    assert(passes_before[i] < p);
                                }
                            } else {
                                assert(before[d].passes@[i] < p);
                            }
                        }
                        if d == c {
                            let all = components@[d].passes@;
                            assert forall|i: int, j: int| #![trigger all[i], all[j]]
                                0 <= i < j < all.len() implies all[i] < all[j] by {
                                assert(all[i] == passes_before[i]);
                                if j < passes_before.len() {
                                    assert(all[j] == passes_before[j]);
                                } else {
                                    assert(before[c as int].passes@[i] < p);
                                }
                            }
                        }
                    }
                    assert forall|d: int, f: int| #![trigger components@[d], components@[f]]
                        0 <= d < f < components@.len() implies components@[d].passes@[0]
                        < components@[f].passes@[0] by {
                        assert(before[d].passes@[0] < before[f].passes@[0]);
                        assert(lists_passes(before[d], p as int));
                        assert(lists_passes(before[f], p as int));
                    }
                }
            },
            None => {
                let mut passes: Vec<usize> = Vec::new();
                passes.push(p);
                let at: usize = components.len();
                index.insert(label, at);
                components.push(PassComponent { passes, resources: Vec::new() });
                proof {
                    roots = roots.push(label);
                    assert(components@[at as int].passes@ =~= seq![p]);
                    assert forall|d: int| 0 <= d < at implies #[trigger] components@[d] == before[d]
                        && roots[d] == roots_before[d] by {}
                    assert forall|d: int, q: usize| 0 <= d < roots.len() implies (
                    #[trigger] components@[d].passes@.contains(q) <==> q < p + 1
                        && labels[q as int] == roots[d]) by {
                        if d < at {
                            assert(before[d].passes@.contains(q) <==> q < p && labels[q as int]
                                == roots_before[d]);
                            assert(index_before.contains_key(roots_before[d]));
                        } else {
                            if q < p {
                                assert(index_before.contains_key(labels[q as int]));
                            }
                            if q == p {
                                assert(components@[d].passes@[0] == q);
                            }
                        }
                    }
                    assert forall|d: int| 0 <= d < roots.len() implies lists_passes(
                        #[trigger] components@[d],
                        p + 1,
                    ) by {
                        if d < at {
                            assert(lists_passes(before[d], p as int));
                            assert forall|i: int| 0 <= i < components@[d].passes@.len() implies
                                #[trigger] components@[d].passes@[i] < p + 1 by {
                                assert(before[d].passes@[i] < p);
                            }
                        }
                    }
                    assert forall|d: int| 0 <= d < roots.len() implies index@.contains_key(
                        #[trigger] roots[d],
                    ) && index@[roots[d]] == d by {
                        if d < at {
                            assert(index_before.contains_key(roots_before[d]));
                        }
                    }
                    assert forall|d: int, f: int| #![trigger components@[d], components@[f]]
                        0 <= d < f < components@.len() implies components@[d].passes@[0]
                        < components@[f].passes@[0] by {
                        assert(lists_passes(before[d], p as int));
                        assert(before[d].passes@[0] < p);
                        if f < at {
                            assert(before[d].passes@[0] < before[f].passes@[0]);
                        }
                    }
                    assert forall|q: int| 0 <= q < p + 1 implies index@.contains_key(
                        #[trigger] labels[q],
                    ) by {
                        if q < p {
                            assert(index_before.contains_key(labels[q]));
                        }
                    }
                }
            },
        }
        p = p + 1;
    }
    (components, index, Ghost(roots))
}

proof fn lemma_push_has(s: Seq<usize>, v: usize, x: usize)
    ensures
        s.push(v).contains(x) <==> s.contains(x) || x == v,
{
    if s.contains(x) {
        let k = choose|k: int| 0 <= k < s.len() && s[k] == x;
        assert(s.push(v)[k] == x);
    }
    if x == v {
        assert(s.push(v)[s.len() as int] == x);
    }
    if s.push(v).contains(x) {
        let k = choose|k: int| 0 <= k < s.push(v).len() && s.push(v)[k] == x;
        if k < s.len() {
            assert(s[k] == x);
        }
    }
}

/// Whether the component with label `root` lists exactly those of the first `k` keys
/// whose resources a pass of that label touches first.
spec fn resources_so_far(
    resources: Seq<u32>,
    keys: Seq<u32>,
    k: int,
    usages: Map<u32, ResourceLifetimeUsage>,
    labels: Seq<usize>,
    root: usize,
) -> bool {
    &&& strictly_ascending(resources)
    &&& forall|id: u32| #[trigger]
        resources.contains(id) <==> keys.take(k).contains(id)
            && labels[usages[id].first_pass as int] == root
}

/// The components of `n` passes, via union-find over what they touch, in the order of
/// their first passes.
pub(crate) fn find_components(
    n: usize,
    usages: &BTreeMap<u32, ResourceLifetimeUsage>,
) -> (components: Vec<PassComponent>)
    requires
        passes_inside(usages@, n as int),
        forall|id: u32| #[trigger]
            usages@.contains_key(id) ==> touched_by(
                usages@,
                id,
                usages@[id].first_pass as int,
            ),
    ensures
        are_components(components@, n as int, usages@),
{
    let labels = label_passes(n, usages);
    let (mut components, index, Ghost(roots)) = group_passes(&labels);
    let ghost n = labels@.len() as int;
    proof {
        assert forall|id: u32| #[trigger] usages@.contains_key(id) implies usages@[id].first_pass
            < n by {
            assert(touched_by(usages@, id, usages@[id].first_pass as int));
        }
    }
    let ghost grouped = components@;
    let keys = ascending_keys(usages);
    let mut k: usize = 0;
    proof {
        assert forall|c: int| 0 <= c < components@.len() implies resources_so_far(
            (#[trigger] components@[c]).resources@,
            keys@,
            0,
            usages@,
            labels@,
            roots[c],
        ) by {
            assert(components@[c].resources@ =~= Seq::<u32>::empty());
            assert(keys@.take(0) =~= Seq::<u32>::empty());
        }
    }
    while k < keys.len()
        invariant
            k <= keys.len(),
            n == labels.len(),
            strictly_ascending(keys@),
            forall|id: u32| #[trigger] keys@.contains(id) <==> usages@.contains_key(id),
            forall|id: u32| #[trigger] usages@.contains_key(id) ==> usages@[id].first_pass < n,
            grouped_by_label(grouped, roots, index@, labels@, n),
            components@.len() == grouped.len(),
            forall|c: int|
                0 <= c < components@.len() ==> (#[trigger] components@[c]).passes
                    == grouped[c].passes && resources_so_far(
                    components@[c].resources@,
                    keys@,
                    k as int,
                    usages@,
                    labels@,
                    roots[c],
                ),
        decreases keys.len() - k,
    {
        let id: u32 = keys[k];
        let ghost before = components@;
        assert(keys@.contains(id));
        match usages.get(&id) {
            Some(usage) => {
                let label: usize = labels[usage.first_pass];
                assert(index@.contains_key(labels@[usage.first_pass as int]));
                match index.get(&label) {
                    Some(at) => {
                        let c: usize = *at;
                        assert(components@[c as int].passes == grouped[c as int].passes);
                        components[c].resources.push(id);
                        proof {
                            let more = keys@.take(k + 1);
                            assert(more =~= keys@.take(k as int).push(id));
                            assert forall|d: int| 0 <= d < components@.len() implies (
                            #[trigger] components@[d]).passes == grouped[d].passes
                                && resources_so_far(
                                components@[d].resources@,
                                keys@,
                                k + 1,
                                usages@,
                                labels@,
                                roots[d],
                            ) by {
                                assert(before[d].passes == grouped[d].passes);
                                assert(resources_so_far(
                                    before[d].resources@,
                                    keys@,
                                    k as int,
                                    usages@,
                                    labels@,
                                    roots[d],
                                ));
                                lemma_resource_step(
                                    before[d].resources@,
                                    keys@,
                                    k as int,
                                    usages@,
                                    labels@,
                                    roots[d],
                                );
                                if d != c {
                                    assert(index@[roots[d]] == d);
                                    assert(components@[d] == before[d]);
                                }
                            }
                        }
                    },
                    None => {
                        assert(false);
                    },
                }
            },
            None => {
                assert(false);
            },
        }
        k = k + 1;
    }
    proof {
        assert(keys@.take(keys@.len() as int) =~= keys@);
        let all = components@;
        assert forall|c: int| 0 <= c < all.len() implies lists_passes(#[trigger] all[c], n) by {
            assert(all[c].passes == grouped[c].passes);
            assert(lists_passes(grouped[c], n));
        }
        assert forall|p: int| 0 <= p < n implies #[trigger] has_pass(all, p) by {
            assert(index@.contains_key(labels@[p]));
            let c = index@[labels@[p]] as int;
            assert(all[c].passes == grouped[c].passes);
            assert(grouped[c].passes@.contains(p as usize));
            assert(component_has(all, c, p));
        }
        assert forall|c: int, i: int, d: int, j: int|
            #![trigger all[c].passes@[i], all[d].passes@[j]]
            0 <= c < all.len() && 0 <= i < all[c].passes@.len() && 0 <= d < all.len() && 0 <= j
                < all[d].passes@.len() implies (connected(
            usages@,
            all[c].passes@[i] as int,
            all[d].passes@[j] as int,
        ) <==> c == d) by {
            let x = all[c].passes@[i];
            let y = all[d].passes@[j];
            assert(all[c].passes == grouped[c].passes);
            assert(all[d].passes == grouped[d].passes);
            assert(grouped[c].passes@.contains(x));
            assert(grouped[d].passes@.contains(y));
            assert(labels@[x as int] == roots[c] && labels@[y as int] == roots[d]);
            assert(together(labels@, x as int, y as int) <==> connected(
                usages@,
                x as int,
                y as int,
            ));
            assert(index@[roots[c]] == c);
            assert(index@[roots[d]] == d);
        }
        assert forall|c: int, d: int| #![trigger all[c], all[d]] 0 <= c < d < all.len() implies all[c].passes@[0]
            < all[d].passes@[0] by {
            assert(all[c].passes == grouped[c].passes);
            assert(all[d].passes == grouped[d].passes);
            assert(grouped[c].passes@[0] < grouped[d].passes@[0]);
        }
        assert forall|c: int| 0 <= c < all.len() implies lists_resources(
            #[trigger] all[c],
            usages@,
        ) by {
            assert(all[c].passes == grouped[c].passes);
            assert forall|id: u32| #[trigger] all[c].resources@.contains(id) <==> usages@.contains_key(
                id,
            ) && all[c].passes@.contains(usages@[id].first_pass) by {
                assert(keys@.contains(id) <==> usages@.contains_key(id));
                assert(grouped[c].passes@.contains(usages@[id].first_pass)
                    <==> usages@[id].first_pass < n && labels@[usages@[id].first_pass as int]
                    == roots[c]);
            }
            assert forall|id: u32| #[trigger]
                all[c].resources@.contains(id) <==> touched_within(all[c], usages@, id) by {
                let first = usages@[id].first_pass;
                if all[c].resources@.contains(id) {
                    assert(all[c].passes@.contains(first));
                    assert(touched_by(usages@, id, first as int));
                }
                if touched_within(all[c], usages@, id) {
                    let p = choose|p: usize| #[trigger]
                        all[c].passes@.contains(p) && touched_by(usages@, id, p as int);
                    assert(touched_by(usages@, id, first as int));
                    lemma_share_connected(usages@, p as int, first as int);
                    assert(grouped[c].passes@.contains(p));
                    assert(together(labels@, p as int, first as int));
                    assert(grouped[c].passes@.contains(first));
                }
            }
        }
    }
    components
}

proof fn lemma_resource_step(
    resources: Seq<u32>,
    keys: Seq<u32>,
    k: int,
    usages: Map<u32, ResourceLifetimeUsage>,
    labels: Seq<usize>,
    root: usize,
)
    requires
        0 <= k < keys.len(),
        strictly_ascending(keys),
        resources_so_far(resources, keys, k, usages, labels, root),
    ensures
        resources_so_far(
            if labels[usages[keys[k]].first_pass as int] == root {
                resources.push(keys[k])
            } else {
                resources
            },
            keys,
            k + 1,
            usages,
            labels,
            root,
        ),
{
    let id = keys[k];
    let few = keys.take(k);
    let more = keys.take(k + 1);
    let out = if labels[usages[id].first_pass as int] == root {
        resources.push(id)
    } else {
        resources
    };
    assert forall|x: u32| #[trigger] more.contains(x) <==> few.contains(x) || x == id by {
        if few.contains(x) {
            let i = choose|i: int| 0 <= i < few.len() && few[i] == x;
            assert(more[i] == x);
        }
        if x == id {
            assert(more[k] == x);
        }
        if more.contains(x) {
            let i = choose|i: int| 0 <= i < more.len() && more[i] == x;
            if i < k {
                assert(few[i] == x);
            }
        }
    }
    assert forall|x: u32| #[trigger] out.contains(x) <==> more.contains(x)
        && labels[usages[x].first_pass as int] == root by {
        assert(resources.contains(x) <==> few.contains(x)
            && labels[usages[x].first_pass as int] == root);
        if labels[usages[id].first_pass as int] == root {
            if resources.contains(x) {
                let i = choose|i: int| 0 <= i < resources.len() && resources[i] == x;
                assert(out[i] == x);
            }
            if x == id {
                assert(out[resources.len() as int] == x);
            }
            if out.contains(x) {
                let i = choose|i: int| 0 <= i < out.len() && out[i] == x;
                if i < resources.len() {
                    assert(resources[i] == x);
                }
            }
        }
    }
    assert forall|i: int, j: int| #![trigger out[i], out[j]] 0 <= i < j < out.len() implies out[i]
        < out[j] by {
        if j < resources.len() {
            assert(resources[i] < resources[j]);
        } else {
            assert(resources.contains(resources[i]));
            let q = choose|q: int| 0 <= q < few.len() && few[q] == resources[i];
            assert(keys[q] < keys[k]);
        }
    }
}

} // verus!
