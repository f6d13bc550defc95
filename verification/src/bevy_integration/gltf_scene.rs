//! How the nodes of a glTF file become entities.
use vstd::prelude::*;

use crate::bevy_integration::asset::SunrayMaterial;

verus! {

/// A primitive of a node's mesh: the mesh by its token, and the material it has, if any.
#[derive(Clone, Copy, Debug)]
pub struct PrimitiveInfo {
    pub mesh: u64,
    pub material: Option<SunrayMaterial>,
}

/// A node of a file. Nodes and their children go by tokens. A node whose mesh is absent
/// has no primitives.
#[derive(Debug)]
pub struct NodeInfo {
    pub id: u64,
    pub primitives: Vec<PrimitiveInfo>,
    pub children: Vec<u64>,
}

/// An entity to spawn, below one that was spawned before it.
#[derive(Clone, Copy, Debug)]
pub enum Spawn {
    /// A node, with its own transform. A node without a parent hangs below the scene.
    Node { node: u64, parent: Option<usize> },
    /// A primitive of the node before it in the hierarchy.
    Primitive { parent: usize, primitive: PrimitiveInfo },
}

/// The first node from `from` on that has a token.
pub open spec fn find_from(nodes: Seq<NodeInfo>, id: u64, from: int) -> Option<int>
    decreases nodes.len() - from,
{
    if 0 <= from < nodes.len() {
        if nodes[from].id == id {
            Some(from)
        } else {
            find_from(nodes, id, from + 1)
        }
    } else {
        None
    }
}

/// The node that has a token.
pub open spec fn find(nodes: Seq<NodeInfo>, id: u64) -> Option<int> {
    find_from(nodes, id, 0)
}

/// Whether some node claims a token as a child.
pub open spec fn is_claimed(nodes: Seq<NodeInfo>, id: u64) -> bool {
    exists|i: int, j: int| #[trigger] claims_at(nodes, i, j, id)
}

/// Whether a node claims a token as its child at a place.
pub open spec fn claims_at(nodes: Seq<NodeInfo>, i: int, j: int, id: u64) -> bool {
    0 <= i < nodes.len() && 0 <= j < nodes[i].children@.len() && nodes[i].children@[j] == id
}

/// What a node itself comes to, spawned at a place: its entity, and one for each of its
/// primitives.
pub open spec fn own_spawns(node: NodeInfo, parent: Option<usize>, at: nat) -> Seq<Spawn> {
    seq![Spawn::Node { node: node.id, parent }] + Seq::new(
        node.primitives@.len(),
        |i: int| Spawn::Primitive { parent: at as usize, primitive: node.primitives@[i] },
    )
}

/// What a node and everything below it come to, spawned from a place on, down to some
/// depth.
pub open spec fn node_spawns(
    nodes: Seq<NodeInfo>,
    i: int,
    parent: Option<usize>,
    at: nat,
    depth: nat,
) -> Seq<Spawn>
    decreases depth, 0nat,
{
    if depth == 0 || !(0 <= i < nodes.len()) {
        Seq::empty()
    } else {
        let own = own_spawns(nodes[i], parent, at);
        own + child_spawns(
            nodes,
            nodes[i].children@,
            at,
            at + own.len(),
            (depth - 1) as nat,
            nodes[i].children@.len(),
        )
    }
}

/// What the first `n` children of the node at `parent` come to, spawned from a place on.
/// A child that is absent is left out.
pub open spec fn child_spawns(
    nodes: Seq<NodeInfo>,
    children: Seq<u64>,
    parent: nat,
    at: nat,
    depth: nat,
    n: nat,
) -> Seq<Spawn>
    decreases depth, n + 1,
{
    if 0 < n <= children.len() {
        let before = child_spawns(nodes, children, parent, at, depth, (n - 1) as nat);
        match find(nodes, children[n - 1]) {
            Some(j) => before + node_spawns(
                nodes,
                j,
                Some(parent as usize),
                at + before.len(),
                depth,
            ),
            None => before,
        }
    } else {
        Seq::empty()
    }
}

/// What the roots among the first `n` nodes come to, with everything below them. Roots
/// are the nodes that no node claims as a child.
pub open spec fn root_spawns(nodes: Seq<NodeInfo>, n: nat) -> Seq<Spawn>
    decreases n,
{
    if 0 < n <= nodes.len() {
        let before = root_spawns(nodes, (n - 1) as nat);
        if is_claimed(nodes, nodes[n - 1].id) {
            before
        } else {
            before + node_spawns(nodes, n - 1, None, before.len(), nodes.len())
        }
    } else {
        Seq::empty()
    }
}

/// What a file comes to.
pub open spec fn scene_spawns(nodes: Seq<NodeInfo>) -> Seq<Spawn> {
    root_spawns(nodes, nodes.len())
}

fn find_node(nodes: &Vec<NodeInfo>, id: u64) -> (found: Option<usize>)
    ensures
        match found {
            Some(i) => find(nodes@, id) == Some(i as int) && i < nodes@.len(),
            None => find(nodes@, id) is None,
        },
{
    let mut i: usize = 0;
    while i < nodes.len()
        invariant
            i <= nodes@.len(),
            find(nodes@, id) == find_from(nodes@, id, i as int),
        decreases nodes@.len() - i,
    {
        if nodes[i].id == id {
            return Some(i);
        }
        i = i + 1;
    }
    None
}

fn is_child(nodes: &Vec<NodeInfo>, id: u64) -> (r: bool)
    ensures
        r == is_claimed(nodes@, id),
{
    for i in 0..nodes.len()
        invariant
            forall|k: int, j: int| 0 <= k < i ==> !#[trigger] claims_at(nodes@, k, j, id),
    {
        let children = &nodes[i].children;
        for j in 0..children.len()
            invariant
                i < nodes@.len(),
                children == &nodes@[i as int].children,
                forall|k: int, l: int| 0 <= k < i ==> !#[trigger] claims_at(nodes@, k, l, id),
                forall|l: int| 0 <= l < j ==> !#[trigger] claims_at(nodes@, i as int, l, id),
        {
            if children[j] == id {
                assert(claims_at(nodes@, i as int, j as int, id));
                return true;
            }
        }
    }
    false
}

/// Lists what a node and everything below it come to.
fn spawn_node(
    nodes: &Vec<NodeInfo>,
    i: usize,
    parent: Option<usize>,
    depth: usize,
    spawns: &mut Vec<Spawn>,
)
    requires
        i < nodes@.len(),
    ensures
        final(spawns)@ == old(spawns)@ + node_spawns(
            nodes@,
            i as int,
            parent,
            old(spawns)@.len(),
            depth as nat,
        ),
    decreases depth,
{
    let ghost before = spawns@;
    if depth == 0 {
        proof {
            assert(spawns@ =~= before + node_spawns(nodes@, i as int, parent, before.len(), 0));
        }
        return;
    }
    let at: usize = spawns.len();
    let node = &nodes[i];
    let ghost own = own_spawns(*node, parent, at as nat);
    spawns.push(Spawn::Node { node: node.id, parent });
    proof {
        assert(spawns@ =~= before + own.take(1));
    }
    for k in 0..node.primitives.len()
        invariant
            at == before.len(),
            own == own_spawns(*node, parent, at as nat),
            spawns@ == before + own.take(1 + k as int),
    {
        spawns.push(Spawn::Primitive { parent: at, primitive: node.primitives[k] });
        assert(spawns@ =~= before + own.take(1 + k as int + 1));
    }
    let ghost base = before + own;
    proof {
        assert(own.take(1 + node.primitives@.len() as int) =~= own);
        assert(spawns@ =~= base + child_spawns(
            nodes@,
            node.children@,
            at as nat,
            base.len(),
            (depth - 1) as nat,
            0,
        ));
    }
    for k in 0..node.children.len()
        invariant
            depth > 0,
            at == before.len(),
            spawns@ == base + child_spawns(
                nodes@,
                node.children@,
                at as nat,
                base.len(),
                (depth - 1) as nat,
                k as nat,
            ),
    {
        match find_node(nodes, node.children[k]) {
            Some(j) => {
                spawn_node(nodes, j, Some(at), depth - 1, spawns);
            },
            None => {},
        }
        proof {
            assert(spawns@ =~= base + child_spawns(
                nodes@,
                node.children@,
                at as nat,
                base.len(),
                (depth - 1) as nat,
                (k + 1) as nat,
            ));
        }
    }
    proof {
        assert(spawns@ =~= before + node_spawns(
            nodes@,
            i as int,
            parent,
            before.len(),
            depth as nat,
        ));
    }
}

/// Lists the entities that a file comes to: for every root, its node, the primitives of
/// its mesh, and then what hangs below it.
pub fn spawn_gltf_scene(nodes: &Vec<NodeInfo>) -> (spawns: Vec<Spawn>)
    ensures
        spawns@ == scene_spawns(nodes@),
{
    let mut spawns: Vec<Spawn> = Vec::new();
    for i in 0..nodes.len()
        invariant
            spawns@ == root_spawns(nodes@, i as nat),
    {
        if !is_child(nodes, nodes[i].id) {
            spawn_node(nodes, i, None, nodes.len(), &mut spawns);
        }
    }
    spawns
}

// ---------------------------------------------------------------------------
// Laws
// ---------------------------------------------------------------------------

/// Whether an entity stands where it belongs: a node without a parent is a root, a node
/// with one is a child of the node it stands below, and a primitive is one of the node it
/// stands below. Parents come first.
pub open spec fn well_placed(nodes: Seq<NodeInfo>, spawns: Seq<Spawn>, k: int) -> bool {
    match spawns[k] {
        Spawn::Node { node, parent } => match parent {
            None => !is_claimed(nodes, node),
            Some(p) => p < k && is_child_of(nodes, node, spawns[p as int]),
        },
        Spawn::Primitive { parent, primitive } => parent < k && is_primitive_of(
            nodes,
            primitive,
            spawns[parent as int],
        ),
    }
}

/// Whether a node is a child of one that an entity stands for.
pub open spec fn is_child_of(nodes: Seq<NodeInfo>, node: u64, spawn: Spawn) -> bool {
    exists|i: int, j: int| #[trigger]
        claims_at(nodes, i, j, node) && is_node_of(spawn, nodes[i])
}

/// Whether a primitive is one of a node that an entity stands for.
pub open spec fn is_primitive_of(
    nodes: Seq<NodeInfo>,
    primitive: PrimitiveInfo,
    spawn: Spawn,
) -> bool {
    exists|i: int, j: int| #[trigger]
        has_primitive(nodes, i, j, primitive) && is_node_of(spawn, nodes[i])
}

/// Whether an entity stands for a node.
pub open spec fn is_node_of(spawn: Spawn, node: NodeInfo) -> bool {
    spawn matches Spawn::Node { node: id, .. } && id == node.id
}

/// Whether a node has a primitive at a place.
pub open spec fn has_primitive(
    nodes: Seq<NodeInfo>,
    i: int,
    j: int,
    primitive: PrimitiveInfo,
) -> bool {
    0 <= i < nodes.len() && 0 <= j < nodes[i].primitives@.len() && nodes[i].primitives@[j]
        == primitive
}

/// Every entity of a file stands where it belongs: the hierarchy of its nodes is kept.
pub proof fn law_the_hierarchy_is_kept(nodes: Seq<NodeInfo>, k: int)
    requires
        scene_spawns(nodes).len() <= usize::MAX,
        0 <= k < scene_spawns(nodes).len(),
    ensures
        well_placed(nodes, scene_spawns(nodes), k),
{
    lemma_roots_placed(nodes, nodes.len());
}

/// Entities that stand where they belong still do when others come behind them.
proof fn lemma_placed_longer(nodes: Seq<NodeInfo>, a: Seq<Spawn>, b: Seq<Spawn>, k: int)
    requires
        0 <= k < a.len(),
        well_placed(nodes, a, k),
    ensures
        well_placed(nodes, a + b, k),
{
    let all = a + b;
    assert(all[k] == a[k]);
    match a[k] {
        Spawn::Node { node, parent } => match parent {
            None => {},
            Some(p) => {
                assert(all[p as int] == a[p as int]);
            },
        },
        Spawn::Primitive { parent, primitive } => {
            assert(all[parent as int] == a[parent as int]);
        },
    }
}

/// Whether all of a list stand where they belong.
spec fn all_placed(nodes: Seq<NodeInfo>, spawns: Seq<Spawn>) -> bool {
    forall|k: int| 0 <= k < spawns.len() ==> #[trigger] well_placed(nodes, spawns, k)
}

proof fn lemma_roots_placed(nodes: Seq<NodeInfo>, n: nat)
    requires
        n <= nodes.len(),
        root_spawns(nodes, n).len() <= usize::MAX,
    ensures
        all_placed(nodes, root_spawns(nodes, n)),
    decreases n,
{
    if n > 0 {
        let before = root_spawns(nodes, (n - 1) as nat);
        lemma_roots_placed(nodes, (n - 1) as nat);
        if !is_claimed(nodes, nodes[n - 1].id) {
            lemma_node_placed(nodes, before, n - 1, None, nodes.len());
        }
    }
}

/// Whether a node may stand below a parent.
spec fn may_stand(nodes: Seq<NodeInfo>, spawns: Seq<Spawn>, i: int, parent: Option<usize>) -> bool {
    match parent {
        None => !is_claimed(nodes, nodes[i].id),
        Some(p) => p < spawns.len() && is_child_of(nodes, nodes[i].id, spawns[p as int]),
    }
}

proof fn lemma_node_placed(
    nodes: Seq<NodeInfo>,
    before: Seq<Spawn>,
    i: int,
    parent: Option<usize>,
    depth: nat,
)
    requires
        all_placed(nodes, before),
        0 <= i < nodes.len(),
        may_stand(nodes, before, i, parent),
        before.len() + node_spawns(nodes, i, parent, before.len(), depth).len() <= usize::MAX,
    ensures
        all_placed(nodes, before + node_spawns(nodes, i, parent, before.len(), depth)),
    decreases depth, 0nat,
{
    let at = before.len();
    if depth == 0 {
        assert(before + node_spawns(nodes, i, parent, at, depth) =~= before);
    } else {
        let node = nodes[i];
        let own = own_spawns(node, parent, at);
        let here = before + own;
        let below = child_spawns(
            nodes,
            node.children@,
            at,
            here.len(),
            (depth - 1) as nat,
            node.children@.len(),
        );
        assert(before + node_spawns(nodes, i, parent, at, depth) =~= here + below);
        assert forall|k: int| 0 <= k < here.len() implies #[trigger] well_placed(
            nodes,
            here,
            k,
        ) by {
            if k < before.len() {
                assert(well_placed(nodes, before, k));
                lemma_placed_longer(nodes, before, own, k);
            } else if k == before.len() {
                assert(here[k] == own[0]);
                assert(own[0] == Spawn::Node { node: node.id, parent });
                match parent {
                    None => {},
                    Some(p) => {
                        assert(here[p as int] == before[p as int]);
                    },
                }
            } else {
                let j = k - before.len() - 1;
                assert(here[k] == own[j + 1]);
                assert(own[j + 1] == Spawn::Primitive {
                    parent: at as usize,
                    primitive: node.primitives@[j],
                });
                assert(here[at as int] == own[0]);
                assert((at as usize) as int == at as int);
                assert(has_primitive(nodes, i, j, node.primitives@[j]) && is_node_of(
                    here[(at as usize) as int],
                    nodes[i],
                ));
            }
        }
        assert(here[at as int] == own[0]);
        lemma_children_placed(
            nodes,
            here,
            i,
            at,
            (depth - 1) as nat,
            node.children@.len(),
        );
    }
}

proof fn lemma_children_placed(
    nodes: Seq<NodeInfo>,
    here: Seq<Spawn>,
    i: int,
    at: nat,
    depth: nat,
    n: nat,
)
    requires
        all_placed(nodes, here),
        0 <= i < nodes.len(),
        at < here.len(),
        is_node_of(here[at as int], nodes[i]),
        n <= nodes[i].children@.len(),
        here.len() + child_spawns(nodes, nodes[i].children@, at, here.len(), depth, n).len()
            <= usize::MAX,
    ensures
        all_placed(
            nodes,
            here + child_spawns(nodes, nodes[i].children@, at, here.len(), depth, n),
        ),
    decreases depth, n + 1,
{
    let children = nodes[i].children@;
    let all = child_spawns(nodes, children, at, here.len(), depth, n);
    if n == 0 {
        assert(here + all =~= here);
    } else {
        let before = child_spawns(nodes, children, at, here.len(), depth, (n - 1) as nat);
        lemma_children_placed(nodes, here, i, at, depth, (n - 1) as nat);
        match find(nodes, children[n - 1]) {
            Some(c) => {
                lemma_found(nodes, children[n - 1], 0);
                let so_far = here + before;
                assert(claims_at(nodes, i, n - 1, nodes[c].id));
                assert(so_far[at as int] == here[at as int]);
                assert(may_stand(nodes, so_far, c, Some(at as usize)));
                let more = node_spawns(nodes, c, Some(at as usize), so_far.len(), depth);
                lemma_node_placed(nodes, so_far, c, Some(at as usize), depth);
                assert(here + all =~= so_far + more);
            },
            None => {},
        }
    }
}

/// What is found has the token that was looked for.
pub proof fn lemma_found(nodes: Seq<NodeInfo>, id: u64, from: int)
    requires
        0 <= from,
    ensures
        find_from(nodes, id, from) matches Some(i) ==> from <= i < nodes.len() && nodes[i].id
            == id,
    decreases nodes.len() - from,
{
    if from < nodes.len() && nodes[from].id != id {
        lemma_found(nodes, id, from + 1);
    }
}

/// Whether the nodes of a file form a hierarchy: every node has a height, less than there
/// are nodes, and stands above its children.
pub open spec fn forms_hierarchy(nodes: Seq<NodeInfo>, height: Seq<nat>) -> bool {
    &&& height.len() == nodes.len()
    &&& forall|i: int| 0 <= i < nodes.len() ==> #[trigger] height[i] < nodes.len()
    &&& forall|i: int, j: int|
        0 <= i < nodes.len() && 0 <= j < nodes[i].children@.len() ==> match #[trigger] find(
            nodes,
            nodes[i].children@[j],
        ) {
            Some(c) => height[c] < height[i],
            None => true,
        }
}

/// Nothing of a hierarchy is cut off: going deeper than there are nodes finds nothing
/// more.
pub proof fn law_hierarchies_are_spawned_whole(
    nodes: Seq<NodeInfo>,
    height: Seq<nat>,
    i: int,
    parent: Option<usize>,
    at: nat,
    deeper: nat,
)
    requires
        forms_hierarchy(nodes, height),
        0 <= i < nodes.len(),
        deeper >= nodes.len(),
    ensures
        node_spawns(nodes, i, parent, at, deeper) == node_spawns(
            nodes,
            i,
            parent,
            at,
            nodes.len(),
        ),
{
    lemma_deep_enough(nodes, height, i, parent, at, deeper);
    lemma_deep_enough(nodes, height, i, parent, at, nodes.len());
}

proof fn lemma_deep_enough(
    nodes: Seq<NodeInfo>,
    height: Seq<nat>,
    i: int,
    parent: Option<usize>,
    at: nat,
    depth: nat,
)
    requires
        forms_hierarchy(nodes, height),
        0 <= i < nodes.len(),
        depth > height[i],
    ensures
        node_spawns(nodes, i, parent, at, depth) == node_spawns(
            nodes,
            i,
            parent,
            at,
            height[i] + 1,
        ),
    decreases height[i], nodes[i].children@.len() + 2,
{
    let own = own_spawns(nodes[i], parent, at);
    lemma_children_deep_enough(
        nodes,
        height,
        i,
        at,
        at + own.len(),
        (depth - 1) as nat,
        nodes[i].children@.len(),
    );
}

proof fn lemma_children_deep_enough(
    nodes: Seq<NodeInfo>,
    height: Seq<nat>,
    i: int,
    parent: nat,
    at: nat,
    depth: nat,
    n: nat,
)
    requires
        forms_hierarchy(nodes, height),
        0 <= i < nodes.len(),
        depth >= height[i],
        n <= nodes[i].children@.len(),
    ensures
        child_spawns(nodes, nodes[i].children@, parent, at, depth, n) == child_spawns(
            nodes,
            nodes[i].children@,
            parent,
            at,
            height[i],
            n,
        ),
    decreases height[i], n + 1,
{
    if n > 0 {
        let children = nodes[i].children@;
        lemma_children_deep_enough(nodes, height, i, parent, at, depth, (n - 1) as nat);
        let before = child_spawns(nodes, children, parent, at, depth, (n - 1) as nat);
        match find(nodes, children[n - 1]) {
            Some(c) => {
                lemma_found(nodes, children[n - 1], 0);
                assert(height[c] < height[i]);
                lemma_deep_enough(
                    nodes,
                    height,
                    c,
                    Some(parent as usize),
                    at + before.len(),
                    depth,
                );
                lemma_deep_enough(
                    nodes,
                    height,
                    c,
                    Some(parent as usize),
                    at + before.len(),
                    height[i],
                );
            },
            None => {},
        }
    }
}

} // verus!
