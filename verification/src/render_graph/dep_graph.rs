//! The pass dependency graph and the disjoint sets over it.
//!
//! Both are collections of `petgraph`. Nodes and edges are known by their indices,
//! which are never reused here: nothing is ever removed.
use petgraph::graph::DiGraph;
use petgraph::unionfind::UnionFind;
use vstd::prelude::*;

verus! {

/// `petgraph`'s adjacency-list graph.
#[verifier::external_type_specification]
#[verifier::external_body]
#[verifier::reject_recursive_types(N)]
#[verifier::reject_recursive_types(E)]
#[verifier::reject_recursive_types(Ty)]
#[verifier::reject_recursive_types(Ix)]
pub struct ExGraph<N, E, Ty, Ix>(petgraph::graph::Graph<N, E, Ty, Ix>);

/// `petgraph`'s marker for graphs whose edges have a direction.
#[verifier::external_type_specification]
#[verifier::external_body]
pub struct ExDirected(petgraph::Directed);

/// `petgraph`'s disjoint sets.
#[verifier::external_type_specification]
#[verifier::external_body]
#[verifier::reject_recursive_types(K)]
pub struct ExUnionFind<K>(petgraph::unionfind::UnionFind<K>);

/// The node weights of a dependency graph, by node index.
pub uninterp spec fn node_weights(g: DiGraph<usize, Vec<u32>>) -> Seq<usize>;

/// The edges of a dependency graph by edge index: source node, target node, and the
/// resources that the edge carries.
pub uninterp spec fn edges(g: DiGraph<usize, Vec<u32>>) -> Seq<(usize, usize, Seq<u32>)>;

/// Whether edge `e` leads from node `a` to node `b`.
pub open spec fn leads(list: Seq<(usize, usize, Seq<u32>)>, e: int, a: int, b: int) -> bool {
    0 <= e < list.len() && list[e].0 == a && list[e].1 == b
}

/// `Graph::new` makes a graph without nodes and edges.
#[verifier::external_body]
pub(crate) fn empty_graph() -> (g: DiGraph<usize, Vec<u32>>)
    ensures
        node_weights(g) == Seq::<usize>::empty(),
        edges(g) == Seq::<(usize, usize, Seq<u32>)>::empty(),
{
    DiGraph::new()
}

/// `Graph::add_node` appends a node and returns its index. The graph has 32-bit
/// indices and cannot take more nodes than those number.
#[verifier::external_body]
pub(crate) fn add_node(g: &mut DiGraph<usize, Vec<u32>>, weight: usize) -> (node: usize)
    requires
        node_weights(*old(g)).len() < u32::MAX,
    ensures
        node == node_weights(*old(g)).len(),
        node_weights(*final(g)) == node_weights(*old(g)).push(weight),
        edges(*final(g)) == edges(*old(g)),
{
    g.add_node(weight).index()
}

/// `Graph::node_count` counts the nodes. There are never more than 32-bit indices
/// can number, and every edge runs between two of them.
#[verifier::external_body]
pub(crate) fn node_count(g: &DiGraph<usize, Vec<u32>>) -> (n: usize)
    ensures
        n == node_weights(*g).len(),
        n <= u32::MAX,
        forall|e: int|
            0 <= e < edges(*g).len() ==> (#[trigger] edges(*g)[e]).0 < n && edges(*g)[e].1 < n,
{
    g.node_count()
}

/// Indexing a graph by a node gives the node's weight.
#[verifier::external_body]
pub(crate) fn node_weight(g: &DiGraph<usize, Vec<u32>>, node: usize) -> (weight: usize)
    requires
        node < node_weights(*g).len(),
        node < u32::MAX,
    ensures
        weight == node_weights(*g)[node as int],
{
    g[petgraph::graph::NodeIndex::new(node)]
}

/// `Graph::find_edge` finds an edge from `a` to `b` if there is one. Which one it
/// finds of several is left open.
#[verifier::external_body]
pub(crate) fn find_edge(g: &DiGraph<usize, Vec<u32>>, a: usize, b: usize) -> (found: Option<usize>)
    requires
        a < u32::MAX,
        b < u32::MAX,
    ensures
        match found {
            Some(e) => leads(edges(*g), e as int, a as int, b as int),
            None => forall|e: int| !leads(edges(*g), e, a as int, b as int),
        },
{
    let from = petgraph::graph::NodeIndex::new(a);
    g.find_edge(from, petgraph::graph::NodeIndex::new(b)).map(|e| e.index())
}

/// `Graph::edge_weight_mut` lends out the weight of an existing edge.
#[verifier::external_body]
pub(crate) fn edge_weight_mut(g: &mut DiGraph<usize, Vec<u32>>, e: usize) -> (weight: &mut Vec<u32>)
    requires
        e < edges(*old(g)).len(),
        e < u32::MAX,
    ensures
        weight@ == edges(*old(g))[e as int].2,
        node_weights(*final(g)) == node_weights(*old(g)),
        edges(*final(g)) == edges(*old(g)).update(
            e as int,
            (edges(*old(g))[e as int].0, edges(*old(g))[e as int].1, final(weight)@),
        ),
{
    g.edge_weight_mut(petgraph::graph::EdgeIndex::new(e)).unwrap()
}

/// `Graph::add_edge` appends an edge between two existing nodes and returns its
/// index. The graph has 32-bit indices and cannot take more edges than those number.
#[verifier::external_body]
pub(crate) fn add_edge(
    g: &mut DiGraph<usize, Vec<u32>>,
    a: usize,
    b: usize,
    weight: Vec<u32>,
) -> (e: usize)
    requires
        a < node_weights(*old(g)).len(),
        b < node_weights(*old(g)).len(),
        node_weights(*old(g)).len() <= u32::MAX,
        edges(*old(g)).len() < u32::MAX,
    ensures
        e == edges(*old(g)).len(),
        node_weights(*final(g)) == node_weights(*old(g)),
        edges(*final(g)) == edges(*old(g)).push((a, b, weight@)),
{
    let from = petgraph::graph::NodeIndex::new(a);
    g.add_edge(from, petgraph::graph::NodeIndex::new(b), weight).index()
}

/// `Graph::edge_count` counts the edges; their indices are `0..edge_count`. There are
/// never more than 32-bit indices can number.
#[verifier::external_body]
pub(crate) fn edge_count(g: &DiGraph<usize, Vec<u32>>) -> (n: usize)
    ensures
        n == edges(*g).len(),
        n <= u32::MAX,
{
    g.edge_count()
}

/// `Graph::edge_endpoints` gives the source and the target of an existing edge.
#[verifier::external_body]
pub(crate) fn edge_endpoints(g: &DiGraph<usize, Vec<u32>>, e: usize) -> (ends: (usize, usize))
    requires
        e < edges(*g).len(),
        e < u32::MAX,
    ensures
        ends == (edges(*g)[e as int].0, edges(*g)[e as int].1),
{
    let (a, b) = g.edge_endpoints(petgraph::graph::EdgeIndex::new(e)).unwrap();
    (a.index(), b.index())
}

/// `Graph::edge_weight` lends out the weight of an existing edge.
#[verifier::external_body]
pub(crate) fn edge_weight(g: &DiGraph<usize, Vec<u32>>, e: usize) -> (weight: &Vec<u32>)
    requires
        e < edges(*g).len(),
        e < u32::MAX,
    ensures
        weight@ == edges(*g)[e as int].2,
{
    g.edge_weight(petgraph::graph::EdgeIndex::new(e)).unwrap()
}

/// The targets of the edges that leave `node`, among the first `n` edges.
pub open spec fn targets(list: Seq<(usize, usize, Seq<u32>)>, node: int, n: nat) -> Seq<usize>
    decreases n,
{
    if n == 0 {
        Seq::empty()
    } else {
        let rest = targets(list, node, (n - 1) as nat);
        if list[n - 1].0 == node {
            rest.push(list[n - 1].1)
        } else {
            rest
        }
    }
}

/// The sources of the edges that enter `node`, among the first `n` edges.
pub open spec fn sources(list: Seq<(usize, usize, Seq<u32>)>, node: int, n: nat) -> Seq<usize>
    decreases n,
{
    if n == 0 {
        Seq::empty()
    } else {
        let rest = sources(list, node, (n - 1) as nat);
        if list[n - 1].1 == node {
            rest.push(list[n - 1].0)
        } else {
            rest
        }
    }
}

/// `Graph::neighbors_directed`, outgoing: the target of every edge that leaves the
/// node, once per edge. In which order is left open.
#[verifier::external_body]
pub(crate) fn outgoing_neighbors(g: &DiGraph<usize, Vec<u32>>, node: usize) -> (list: Vec<usize>)
    requires
        node < u32::MAX,
    ensures
        list@.to_multiset() == targets(edges(*g), node as int, edges(*g).len()).to_multiset(),
{
    let from = petgraph::graph::NodeIndex::new(node);
    g.neighbors_directed(from, petgraph::Direction::Outgoing).map(|n| n.index()).collect()
}

/// `Graph::neighbors_directed`, incoming: the source of every edge that enters the
/// node, once per edge. In which order is left open.
#[verifier::external_body]
pub(crate) fn incoming_neighbors(g: &DiGraph<usize, Vec<u32>>, node: usize) -> (list: Vec<usize>)
    requires
        node < u32::MAX,
    ensures
        list@.to_multiset() == sources(edges(*g), node as int, edges(*g).len()).to_multiset(),
{
    let to = petgraph::graph::NodeIndex::new(node);
    g.neighbors_directed(to, petgraph::Direction::Incoming).map(|n| n.index()).collect()
}

/// What stands for each element of the disjoint sets: elements have the same
/// representative if and only if they are in the same set.
pub uninterp spec fn representatives(sets: UnionFind<usize>) -> Seq<usize>;

/// `UnionFind::new` makes sets of one element each.
#[verifier::external_body]
pub(crate) fn singletons(n: usize) -> (sets: UnionFind<usize>)
    ensures
        representatives(sets).len() == n,
        forall|i: int| 0 <= i < n ==> #[trigger] representatives(sets)[i] == i,
{
    UnionFind::new(n)
}

/// Whether `x` and `y` are in the same set.
pub open spec fn together(reps: Seq<usize>, x: int, y: int) -> bool {
    reps[x] == reps[y]
}

/// `UnionFind::union` makes one set of the sets of `a` and `b` and leaves the others
/// as they are.
#[verifier::external_body]
pub(crate) fn unite(sets: &mut UnionFind<usize>, a: usize, b: usize)
    requires
        a < representatives(*old(sets)).len(),
        b < representatives(*old(sets)).len(),
    ensures
        representatives(*final(sets)).len() == representatives(*old(sets)).len(),
        forall|x: int, y: int|
            0 <= x < representatives(*old(sets)).len() && 0 <= y < representatives(
                *old(sets),
            ).len() ==> {
                let reps = representatives(*old(sets));
                #[trigger] together(representatives(*final(sets)), x, y) <==> together(reps, x, y)
                    || (together(reps, x, a as int) && together(reps, b as int, y)) || (together(
                    reps,
                    x,
                    b as int,
                ) && together(reps, a as int, y))
            },
{
    sets.union(a, b);
}

/// `UnionFind::into_labeling` lists every element's representative.
#[verifier::external_body]
pub(crate) fn into_labeling(sets: UnionFind<usize>) -> (labels: Vec<usize>)
    ensures
        labels@ == representatives(sets),
{
    sets.into_labeling()
}

} // verus!
