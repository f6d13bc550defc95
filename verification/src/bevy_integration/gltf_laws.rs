//! Every node of a hierarchy becomes one entity.
use vstd::prelude::*;

use crate::bevy_integration::gltf_scene::{
    child_spawns, claims_at, find, find_from, forms_hierarchy, is_claimed, is_node_of, lemma_found,
    node_spawns, own_spawns, root_spawns, scene_spawns, NodeInfo, Spawn,
};

verus! {

/// How many of some entities stand for the node with a token.
pub open spec fn node_count(spawns: Seq<Spawn>, id: u64) -> nat
    decreases spawns.len(),
{
    if spawns.len() == 0 {
        0
    } else {
        let before = node_count(spawns.drop_last(), id);
        match spawns.last() {
            Spawn::Node { node, .. } if node == id => before + 1,
            _ => before,
        }
    }
}

/// Whether no two nodes have one token.
pub open spec fn tokens_differ(nodes: Seq<NodeInfo>) -> bool {
    forall|i: int, j: int|
        0 <= i < j < nodes.len() ==> (#[trigger] nodes[i]).id != (#[trigger] nodes[j]).id
}

/// Whether the nodes of a file form trees: they form a hierarchy, no two have one token,
/// and no node is claimed twice.
pub open spec fn forms_trees(nodes: Seq<NodeInfo>, height: Seq<nat>) -> bool {
    &&& forms_hierarchy(nodes, height)
    &&& tokens_differ(nodes)
    &&& forall|i: int, j: int, k: int, l: int, id: u64| #[trigger]
        claims_at(nodes, i, j, id) && #[trigger] claims_at(nodes, k, l, id) ==> i == k && j == l
}

/// Every node of a file whose nodes form trees becomes exactly one entity.
pub proof fn law_every_node_is_spawned_once(nodes: Seq<NodeInfo>, height: Seq<nat>, t: int)
    requires
        forms_trees(nodes, height),
        0 <= t < nodes.len(),
    ensures
        node_count(scene_spawns(nodes), nodes[t].id) == 1,
{
    let r = lemma_some_root_is_above(nodes, height, t);
    assert(is_root_of(nodes, height, r, t));
    lemma_roots_count(nodes, height, t, nodes.len());
}

/// Whether an entity that stands for a node is followed by one for each of the node's
/// primitives, in order and below it.
pub open spec fn primitives_follow(nodes: Seq<NodeInfo>, spawns: Seq<Spawn>, k: int) -> bool {
    forall|i: int, j: int|
        0 <= i < nodes.len() && is_node_of(spawns[k], nodes[i]) && 0 <= j
            < nodes[i].primitives@.len() ==> k + 1 + j < spawns.len() && spawns[k + 1 + j]
            == (Spawn::Primitive {
            parent: k as usize,
            primitive: #[trigger] nodes[i].primitives@[j],
        })
}

/// Every primitive of a node's mesh becomes an entity right behind the node's own.
pub proof fn law_primitives_follow_their_node(nodes: Seq<NodeInfo>, k: int)
    requires
        tokens_differ(nodes),
        0 <= k < scene_spawns(nodes).len(),
    ensures
        primitives_follow(nodes, scene_spawns(nodes), k),
{
    lemma_roots_followed(nodes, nodes.len());
}

/// Whether every entity of a list is followed by its primitives.
spec fn all_followed(nodes: Seq<NodeInfo>, spawns: Seq<Spawn>) -> bool {
    forall|k: int| 0 <= k < spawns.len() ==> #[trigger] primitives_follow(nodes, spawns, k)
}

/// What comes behind changes nothing.
proof fn lemma_followed_longer(nodes: Seq<NodeInfo>, a: Seq<Spawn>, b: Seq<Spawn>, k: int)
    requires
        0 <= k < a.len(),
        primitives_follow(nodes, a, k),
    ensures
        primitives_follow(nodes, a + b, k),
{
    assert((a + b)[k] == a[k]);
    assert forall|i: int, j: int|
        0 <= i < nodes.len() && is_node_of((a + b)[k], nodes[i]) && 0 <= j
            < nodes[i].primitives@.len() implies k + 1 + j < (a + b).len() && (a + b)[k + 1 + j]
        == (Spawn::Primitive {
        parent: k as usize,
        primitive: #[trigger] nodes[i].primitives@[j],
    }) by {
        assert(a[k + 1 + j] == (Spawn::Primitive {
            parent: k as usize,
            primitive: nodes[i].primitives@[j],
        }));
        assert((a + b)[k + 1 + j] == a[k + 1 + j]);
    }
}

proof fn lemma_roots_followed(nodes: Seq<NodeInfo>, n: nat)
    requires
        tokens_differ(nodes),
        n <= nodes.len(),
    ensures
        all_followed(nodes, root_spawns(nodes, n)),
    decreases n,
{
    if n > 0 {
        let before = root_spawns(nodes, (n - 1) as nat);
        lemma_roots_followed(nodes, (n - 1) as nat);
        if !is_claimed(nodes, nodes[n - 1].id) {
            lemma_node_followed(nodes, before, n - 1, None, nodes.len());
        }
    }
}

proof fn lemma_node_followed(
    nodes: Seq<NodeInfo>,
    before: Seq<Spawn>,
    i: int,
    parent: Option<usize>,
    depth: nat,
)
    requires
        tokens_differ(nodes),
        all_followed(nodes, before),
        0 <= i < nodes.len(),
    ensures
        all_followed(nodes, before + node_spawns(nodes, i, parent, before.len(), depth)),
    decreases depth, 0nat,
{
    let at = before.len();
    if depth == 0 {
        assert(before + node_spawns(nodes, i, parent, at, depth) =~= before);
    } else {
        let node = nodes[i];
        let own = own_spawns(node, parent, at);
        let here = before + own;
        let below = child_spawns(
            nodes,
            node.children@,
            at,
            here.len(),
            (depth - 1) as nat,
            node.children@.len(),
        );
        assert(before + node_spawns(nodes, i, parent, at, depth) =~= here + below);
        assert forall|k: int| 0 <= k < here.len() implies #[trigger] primitives_follow(
            nodes,
            here,
            k,
        ) by {
            if k < at {
                assert(primitives_follow(nodes, before, k));
                lemma_followed_longer(nodes, before, own, k);
            } else if k == at {
                assert(here[k] == own[0]);
                assert forall|m: int, j: int|
                    0 <= m < nodes.len() && is_node_of(here[k], nodes[m]) && 0 <= j
                        < nodes[m].primitives@.len() implies k + 1 + j < here.len() && here[k + 1
                    + j] == (Spawn::Primitive {
                    parent: k as usize,
                    primitive: #[trigger] nodes[m].primitives@[j],
                }) by {
                    assert(m == i) by {
                        if m < i {
                            assert(nodes[m].id != nodes[i].id);
                        } else if m > i {
                            assert(nodes[i].id != nodes[m].id);
                        }
                    }
                    assert(here[k + 1 + j] == own[1 + j]);
                }
            } else {
                assert(here[k] == own[k - at]);
                assert(here[k] is Primitive);
            }
        }
        lemma_children_followed(
            nodes,
            here,
            node.children@,
            at,
            (depth - 1) as nat,
            node.children@.len(),
        );
    }
}

proof fn lemma_children_followed(
    nodes: Seq<NodeInfo>,
    here: Seq<Spawn>,
    children: Seq<u64>,
    at: nat,
    depth: nat,
    n: nat,
)
    requires
        tokens_differ(nodes),
        all_followed(nodes, here),
        n <= children.len(),
    ensures
        all_followed(nodes, here + child_spawns(nodes, children, at, here.len(), depth, n)),
    decreases depth, n + 1,
{
    let all = child_spawns(nodes, children, at, here.len(), depth, n);
    if n == 0 {
        assert(here + all =~= here);
    } else {
        let before = child_spawns(nodes, children, at, here.len(), depth, (n - 1) as nat);
        lemma_children_followed(nodes, here, children, at, depth, (n - 1) as nat);
        match find(nodes, children[n - 1]) {
            Some(c) => {
                lemma_found(nodes, children[n - 1], 0);
                let so_far = here + before;
                let more = node_spawns(nodes, c, Some(at as usize), so_far.len(), depth);
                lemma_node_followed(nodes, so_far, c, Some(at as usize), depth);
                assert(here + all =~= so_far + more);
            },
            None => {},
        }
    }
}

proof fn lemma_count_added(a: Seq<Spawn>, b: Seq<Spawn>, id: u64)
    ensures
        node_count(a + b, id) == node_count(a, id) + node_count(b, id),
    decreases b.len(),
{
    if b.len() == 0 {
        assert(a + b =~= a);
    } else {
        lemma_count_added(a, b.drop_last(), id);
        assert((a + b).drop_last() =~= a + b.drop_last());
        assert((a + b).last() == b.last());
    }
}

/// A node itself counts once, and its primitives do not count.
proof fn lemma_own_count(node: NodeInfo, parent: Option<usize>, at: nat, id: u64)
    ensures
        node_count(own_spawns(node, parent, at), id) == (if node.id == id {
            1nat
        } else {
            0nat
        }),
{
    let first = seq![Spawn::Node { node: node.id, parent }];
    let rest = Seq::new(
        node.primitives@.len(),
        |i: int| Spawn::Primitive { parent: at as usize, primitive: node.primitives@[i] },
    );
    lemma_count_added(first, rest, id);
    assert(first.drop_last() =~= Seq::empty());
    assert(node_count(first.drop_last(), id) == 0);
    lemma_primitives_count(rest, id);
}

proof fn lemma_primitives_count(list: Seq<Spawn>, id: u64)
    requires
        forall|i: int| 0 <= i < list.len() ==> (#[trigger] list[i]) is Primitive,
    ensures
        node_count(list, id) == 0,
    decreases list.len(),
{
    if list.len() > 0 {
        let shorter = list.drop_last();
        assert forall|i: int| 0 <= i < shorter.len() implies (#[trigger] shorter[i]) is Primitive by {
            assert(shorter[i] == list[i]);
        }
        lemma_primitives_count(shorter, id);
        assert(list.last() is Primitive);
    }
}

// ---------------------------------------------------------------------------
// What stands above a node
// ---------------------------------------------------------------------------

/// Whether a node claims another as a child.
spec fn is_above(nodes: Seq<NodeInfo>, i: int, c: int) -> bool {
    exists|j: int| #[trigger] claims_at(nodes, i, j, nodes[c].id)
}

/// The node that claims another, if one does.
spec fn up(nodes: Seq<NodeInfo>, c: int) -> Option<int> {
    if exists|i: int| #[trigger] is_above(nodes, i, c) {
        Some(choose|i: int| #[trigger] is_above(nodes, i, c))
    } else {
        None
    }
}

proof fn lemma_up(nodes: Seq<NodeInfo>, height: Seq<nat>, c: int)
    requires
        forms_trees(nodes, height),
        0 <= c < nodes.len(),
    ensures
        up(nodes, c) matches Some(i) ==> 0 <= i < nodes.len() && is_above(nodes, i, c) && height[c]
            < height[i],
        up(nodes, c) is None <==> !is_claimed(nodes, nodes[c].id),
        forall|i: int, j: int| #[trigger]
            claims_at(nodes, i, j, nodes[c].id) ==> up(nodes, c) == Some(i),
{
    let id = nodes[c].id;
    lemma_finds(nodes, height, c);
    if let Some(i) = up(nodes, c) {
        assert(is_above(nodes, i, c));
        let j = choose|j: int| #[trigger] claims_at(nodes, i, j, id);
        assert(claims_at(nodes, i, j, id));
        assert(find(nodes, nodes[i].children@[j]) == Some(c));
    }
    assert forall|i: int, j: int| #[trigger] claims_at(nodes, i, j, id) implies up(nodes, c)
        == Some(i) by {
        assert(is_above(nodes, i, c));
        let k = up(nodes, c)->0;
        assert(is_above(nodes, k, c));
        let l = choose|l: int| #[trigger] claims_at(nodes, k, l, id);
        assert(claims_at(nodes, k, l, id));
    }
    if is_claimed(nodes, id) {
        let (i, j) = choose|i: int, j: int| #[trigger] claims_at(nodes, i, j, id);
        assert(claims_at(nodes, i, j, id));
    }
}

/// A token that no other node has leads to its node.
proof fn lemma_finds(nodes: Seq<NodeInfo>, height: Seq<nat>, c: int)
    requires
        forms_trees(nodes, height),
        0 <= c < nodes.len(),
    ensures
        find(nodes, nodes[c].id) == Some(c),
{
    lemma_finds_from(nodes, height, c, 0);
}

proof fn lemma_finds_from(nodes: Seq<NodeInfo>, height: Seq<nat>, c: int, from: int)
    requires
        forms_trees(nodes, height),
        0 <= from <= c < nodes.len(),
    ensures
        find_from(nodes, nodes[c].id, from) == Some(c),
    decreases c - from,
{
    if from < c {
        assert(nodes[from].id != nodes[c].id);
        lemma_finds_from(nodes, height, c, from + 1);
    }
}

/// Whether `i` is the node `t` or stands somewhere above it.
spec fn reaches(nodes: Seq<NodeInfo>, height: Seq<nat>, i: int, t: int) -> bool
    decreases nodes.len() - height[t],
    when forms_trees(nodes, height) && 0 <= t < nodes.len()
    via up_is_higher
{
    i == t || match up(nodes, t) {
        Some(p) => reaches(nodes, height, i, p),
        None => false,
    }
}

#[via_fn]
proof fn up_is_higher(nodes: Seq<NodeInfo>, height: Seq<nat>, i: int, t: int) {
    lemma_up(nodes, height, t);
}

/// What stands above is higher.
proof fn lemma_reaching_is_higher(nodes: Seq<NodeInfo>, height: Seq<nat>, i: int, t: int)
    requires
        forms_trees(nodes, height),
        0 <= t < nodes.len(),
        reaches(nodes, height, i, t),
    ensures
        0 <= i < nodes.len(),
        height[i] >= height[t],
    decreases nodes.len() - height[t],
{
    lemma_up(nodes, height, t);
    if i != t {
        lemma_reaching_is_higher(nodes, height, i, up(nodes, t)->0);
    }
}

/// What claims something above a node stands above the node.
proof fn lemma_reaches_from_above(
    nodes: Seq<NodeInfo>,
    height: Seq<nat>,
    i: int,
    c: int,
    t: int,
)
    requires
        forms_trees(nodes, height),
        0 <= t < nodes.len(),
        reaches(nodes, height, c, t),
        up(nodes, c) == Some(i),
    ensures
        reaches(nodes, height, i, t),
    decreases nodes.len() - height[t],
{
    lemma_up(nodes, height, t);
    if c == t {
        assert(reaches(nodes, height, i, i));
    } else {
        lemma_reaches_from_above(nodes, height, i, c, up(nodes, t)->0);
    }
}

/// What stands above a node claims another that is the node or stands above it.
proof fn lemma_reaches_through_a_child(
    nodes: Seq<NodeInfo>,
    height: Seq<nat>,
    i: int,
    t: int,
) -> (c: int)
    requires
        forms_trees(nodes, height),
        0 <= t < nodes.len(),
        reaches(nodes, height, i, t),
        i != t,
    ensures
        0 <= c < nodes.len(),
        up(nodes, c) == Some(i),
        reaches(nodes, height, c, t),
    decreases nodes.len() - height[t],
{
    lemma_up(nodes, height, t);
    let p = up(nodes, t)->0;
    if i == p {
        t
    } else {
        lemma_reaches_through_a_child(nodes, height, i, p)
    }
}

/// Of what one node claims, only one stands above a node or is it.
proof fn lemma_one_way_down(
    nodes: Seq<NodeInfo>,
    height: Seq<nat>,
    i: int,
    c: int,
    d: int,
    t: int,
)
    requires
        forms_trees(nodes, height),
        0 <= t < nodes.len(),
        0 <= c < nodes.len(),
        0 <= d < nodes.len(),
        reaches(nodes, height, c, t),
        reaches(nodes, height, d, t),
        up(nodes, c) == Some(i),
        up(nodes, d) == Some(i),
    ensures
        c == d,
    decreases nodes.len() - height[t],
{
    lemma_up(nodes, height, t);
    lemma_up(nodes, height, c);
    lemma_up(nodes, height, d);
    if c == t || d == t {
        if c != d {
            let other = if c == t {
                d
            } else {
                c
            };
            lemma_reaching_is_higher(nodes, height, other, i);
        }
    } else {
        lemma_one_way_down(nodes, height, i, c, d, up(nodes, t)->0);
    }
}

/// Some root stands above every node or is it.
proof fn lemma_some_root_is_above(nodes: Seq<NodeInfo>, height: Seq<nat>, t: int) -> (r: int)
    requires
        forms_trees(nodes, height),
        0 <= t < nodes.len(),
    ensures
        0 <= r < nodes.len(),
        up(nodes, r) is None,
        reaches(nodes, height, r, t),
    decreases nodes.len() - height[t],
{
    lemma_up(nodes, height, t);
    match up(nodes, t) {
        Some(p) => lemma_some_root_is_above(nodes, height, p),
        None => t,
    }
}

/// And only one does.
proof fn lemma_one_root_is_above(nodes: Seq<NodeInfo>, height: Seq<nat>, r: int, s: int, t: int)
    requires
        forms_trees(nodes, height),
        0 <= t < nodes.len(),
        reaches(nodes, height, r, t),
        reaches(nodes, height, s, t),
        up(nodes, r) is None,
        up(nodes, s) is None,
    ensures
        r == s,
    decreases nodes.len() - height[t],
{
    lemma_up(nodes, height, t);
    if r != t && s != t {
        lemma_one_root_is_above(nodes, height, r, s, up(nodes, t)->0);
    }
}

// ---------------------------------------------------------------------------
// Counting
// ---------------------------------------------------------------------------

/// Once where something holds, and not where it does not.
spec fn once(holds: bool) -> nat {
    if holds {
        1
    } else {
        0
    }
}

/// What a node comes to holds another once where it is or stands above the other.
proof fn lemma_node_count(
    nodes: Seq<NodeInfo>,
    height: Seq<nat>,
    i: int,
    parent: Option<usize>,
    at: nat,
    depth: nat,
    t: int,
)
    requires
        forms_trees(nodes, height),
        0 <= i < nodes.len(),
        0 <= t < nodes.len(),
        depth > height[i],
    ensures
        node_count(node_spawns(nodes, i, parent, at, depth), nodes[t].id) == once(
            reaches(nodes, height, i, t),
        ),
    decreases height[i], nodes[i].children@.len() + 2,
{
    let id = nodes[t].id;
    let children = nodes[i].children@;
    let own = own_spawns(nodes[i], parent, at);
    let below = child_spawns(nodes, children, at, at + own.len(), (depth - 1) as nat, children.len());
    lemma_count_added(own, below, id);
    lemma_own_count(nodes[i], parent, at, id);
    lemma_children_count(
        nodes,
        height,
        i,
        at,
        at + own.len(),
        (depth - 1) as nat,
        children.len(),
        t,
    );
    assert(nodes[i].id == id <==> i == t);
    if i == t {
        if leads(nodes, height, i, children.len(), t) {
            let j = choose|j: int|
                0 <= j < children.len() && #[trigger] leads_at(nodes, height, i, j, t);
            let c = find(nodes, children[j])->0;
            assert(leads_at(nodes, height, i, j, t));
            lemma_reaching_is_higher(nodes, height, c, t);
        }
    } else if reaches(nodes, height, i, t) {
        let c = lemma_reaches_through_a_child(nodes, height, i, t);
        lemma_up(nodes, height, c);
        let j = choose|j: int| #[trigger] claims_at(nodes, i, j, nodes[c].id);
        assert(claims_at(nodes, i, j, nodes[c].id));
        lemma_finds(nodes, height, c);
        assert(leads_at(nodes, height, i, j, t));
    } else if leads(nodes, height, i, children.len(), t) {
        let j = choose|j: int|
            0 <= j < children.len() && #[trigger] leads_at(nodes, height, i, j, t);
        assert(leads_at(nodes, height, i, j, t));
        let c = find(nodes, children[j])->0;
        lemma_found(nodes, children[j], 0);
        assert(claims_at(nodes, i, j, nodes[c].id));
        lemma_up(nodes, height, c);
        lemma_reaches_from_above(nodes, height, i, c, t);
    }
}

/// Whether a child of a node is another or stands above it.
spec fn leads_at(nodes: Seq<NodeInfo>, height: Seq<nat>, i: int, j: int, t: int) -> bool {
    find(nodes, nodes[i].children@[j]) matches Some(c) && reaches(nodes, height, c, t)
}

/// Whether one of the first `n` children of a node is another or stands above it.
spec fn leads(nodes: Seq<NodeInfo>, height: Seq<nat>, i: int, n: nat, t: int) -> bool {
    exists|j: int| 0 <= j < n && #[trigger] leads_at(nodes, height, i, j, t)
}

proof fn lemma_children_count(
    nodes: Seq<NodeInfo>,
    height: Seq<nat>,
    i: int,
    parent: nat,
    at: nat,
    depth: nat,
    n: nat,
    t: int,
)
    requires
        forms_trees(nodes, height),
        0 <= i < nodes.len(),
        0 <= t < nodes.len(),
        depth >= height[i],
        n <= nodes[i].children@.len(),
    ensures
        node_count(
            child_spawns(nodes, nodes[i].children@, parent, at, depth, n),
            nodes[t].id,
        ) == once(leads(nodes, height, i, n, t)),
    decreases height[i], n + 1,
{
    let id = nodes[t].id;
    let children = nodes[i].children@;
    if n > 0 {
        let before = child_spawns(nodes, children, parent, at, depth, (n - 1) as nat);
        lemma_children_count(nodes, height, i, parent, at, depth, (n - 1) as nat, t);
        assert(leads(nodes, height, i, n, t) <==> leads(nodes, height, i, (n - 1) as nat, t)
            || leads_at(nodes, height, i, n - 1, t)) by {
            if leads(nodes, height, i, n, t) {
                let j = choose|j: int| 0 <= j < n && #[trigger] leads_at(nodes, height, i, j, t);
                assert(leads_at(nodes, height, i, j, t));
            }
            if leads(nodes, height, i, (n - 1) as nat, t) {
                let j = choose|j: int|
                    0 <= j < n - 1 && #[trigger] leads_at(nodes, height, i, j, t);
                assert(leads_at(nodes, height, i, j, t));
            }
        }
        match find(nodes, children[n - 1]) {
            Some(c) => {
                lemma_found(nodes, children[n - 1], 0);
                assert(claims_at(nodes, i, n - 1, nodes[c].id));
                lemma_up(nodes, height, c);
                let more = node_spawns(
                    nodes,
                    c,
                    Some(parent as usize),
                    at + before.len(),
                    depth,
                );
                lemma_node_count(
                    nodes,
                    height,
                    c,
                    Some(parent as usize),
                    at + before.len(),
                    depth,
                    t,
                );
                lemma_count_added(before, more, id);
                if leads(nodes, height, i, (n - 1) as nat, t) && leads_at(
                    nodes,
                    height,
                    i,
                    n - 1,
                    t,
                ) {
                    let j = choose|j: int|
                        0 <= j < n - 1 && #[trigger] leads_at(nodes, height, i, j, t);
                    assert(leads_at(nodes, height, i, j, t));
                    let d = find(nodes, children[j])->0;
                    lemma_found(nodes, children[j], 0);
                    assert(claims_at(nodes, i, j, nodes[d].id));
                    lemma_up(nodes, height, d);
                    lemma_one_way_down(nodes, height, i, c, d, t);
                }
            },
            None => {},
        }
    }
}

/// Whether a root among the first `n` nodes is a node or stands above it.
spec fn rooted(nodes: Seq<NodeInfo>, height: Seq<nat>, n: nat, t: int) -> bool {
    exists|r: int| 0 <= r < n && #[trigger] is_root_of(nodes, height, r, t)
}

spec fn is_root_of(nodes: Seq<NodeInfo>, height: Seq<nat>, r: int, t: int) -> bool {
    up(nodes, r) is None && reaches(nodes, height, r, t)
}

proof fn lemma_roots_count(nodes: Seq<NodeInfo>, height: Seq<nat>, t: int, n: nat)
    requires
        forms_trees(nodes, height),
        0 <= t < nodes.len(),
        n <= nodes.len(),
    ensures
        node_count(root_spawns(nodes, n), nodes[t].id) == once(rooted(nodes, height, n, t)),
    decreases n,
{
    if n > 0 {
        let before = root_spawns(nodes, (n - 1) as nat);
        lemma_roots_count(nodes, height, t, (n - 1) as nat);
        lemma_up(nodes, height, n - 1);
        assert(rooted(nodes, height, n, t) <==> rooted(nodes, height, (n - 1) as nat, t)
            || is_root_of(nodes, height, n - 1, t)) by {
            if rooted(nodes, height, n, t) {
                let r = choose|r: int| 0 <= r < n && #[trigger] is_root_of(nodes, height, r, t);
                assert(is_root_of(nodes, height, r, t));
            }
            if rooted(nodes, height, (n - 1) as nat, t) {
                let r = choose|r: int|
                    0 <= r < n - 1 && #[trigger] is_root_of(nodes, height, r, t);
                assert(is_root_of(nodes, height, r, t));
            }
        }
        if !is_claimed(nodes, nodes[n - 1].id) {
            let more = node_spawns(nodes, n - 1, None, before.len(), nodes.len());
            assert(height[n - 1] < nodes.len());
            lemma_node_count(nodes, height, n - 1, None, before.len(), nodes.len(), t);
            lemma_count_added(before, more, nodes[t].id);
            if rooted(nodes, height, (n - 1) as nat, t) && is_root_of(nodes, height, n - 1, t) {
                let r = choose|r: int|
                    0 <= r < n - 1 && #[trigger] is_root_of(nodes, height, r, t);
                assert(is_root_of(nodes, height, r, t));
                lemma_one_root_is_above(nodes, height, r, n - 1, t);
            }
        }
    }
}

} // verus!
