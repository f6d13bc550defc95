//! What a scene comes to, in terms of its nodes.

use vstd::prelude::*;

use crate::render_graph::resource::SamplerDesc;
use crate::scene::{
    built_for, geometry_given, holds_key, instance_of, laid_out, own_primitives, primitives_of,
    primitives_of_first, unique_primitives, upper_rows, GltfImage, GltfSampler, LoadedBlas,
    LoadedScene, Node, Placed, Primitive, PrimitiveData, Scene, SceneData,
};

verus! {

// ---------------------------------------------------------------------------
// Nodes by the way to them
// ---------------------------------------------------------------------------

/// The node that a way leads to from a list of nodes: the first step picks one of the
/// list, every other a child. There is none where a step leads nowhere.
pub open spec fn node_at(nodes: Seq<Node>, way: Seq<int>) -> Option<Node>
    decreases way.len(),
{
    if way.len() == 0 || !(0 <= way[0] < nodes.len()) {
        None
    } else if way.len() == 1 {
        Some(nodes[way[0]])
    } else {
        match nodes[way[0]].children {
            Some(children) => node_at(children@, way.drop_first()),
            None => None,
        }
    }
}

/// A primitive by the way to its node and its place in the node's mesh.
pub type Spot = (Seq<int>, int);

/// Whether there is a primitive at a spot.
pub open spec fn is_spot(nodes: Seq<Node>, spot: Spot) -> bool {
    match node_at(nodes, spot.0) {
        Some(node) => node.mesh matches Some(mesh) && 0 <= spot.1 < mesh@.len(),
        None => false,
    }
}

/// The node at a spot.
pub open spec fn spot_node(nodes: Seq<Node>, spot: Spot) -> Node {
    node_at(nodes, spot.0)->0
}

/// The primitive at a spot.
pub open spec fn spot_primitive(nodes: Seq<Node>, spot: Spot) -> Primitive {
    (spot_node(nodes, spot).mesh->0)@[spot.1]
}

/// Spots below a node, as spots of the list that the node is the `j`-th of.
spec fn below(j: int, spots: Seq<Spot>) -> Seq<Spot> {
    Seq::new(spots.len(), |k: int| (seq![j] + spots[k].0, spots[k].1))
}

/// The spots of a node and of everything below it, by the way from the node on.
spec fn spots_of(node: Node) -> Seq<Spot>
    decreases node, 0nat,
{
    (match node.mesh {
        Some(mesh) => Seq::new(mesh@.len(), |i: int| (Seq::<int>::empty(), i)),
        None => Seq::empty(),
    }) + match node.children {
        Some(children) => spots_in(children@, children@.len()),
        None => Seq::empty(),
    }
}

/// The spots of the first `n` nodes and of everything below them.
spec fn spots_in(nodes: Seq<Node>, n: nat) -> Seq<Spot>
    decreases nodes, n,
{
    if 0 < n <= nodes.len() {
        spots_in(nodes, (n - 1) as nat) + below(n - 1, spots_of(nodes[n - 1]))
    } else {
        Seq::empty()
    }
}

/// The node that a way leads to from a node on.
spec fn node_below(node: Node, way: Seq<int>) -> Option<Node> {
    if way.len() == 0 {
        Some(node)
    } else {
        match node.children {
            Some(children) => node_at(children@, way),
            None => None,
        }
    }
}

spec fn is_spot_below(node: Node, spot: Spot) -> bool {
    match node_below(node, spot.0) {
        Some(node) => node.mesh matches Some(mesh) && 0 <= spot.1 < mesh@.len(),
        None => false,
    }
}

spec fn placed_there(there: Option<Node>, spot: Spot) -> Placed {
    Placed { primitive: (there->0.mesh->0)@[spot.1], transform: there->0.transform }
}

proof fn lemma_spots_of(node: Node)
    ensures
        spots_of(node).len() == primitives_of(node).len(),
        forall|k: int|
            0 <= k < spots_of(node).len() ==> is_spot_below(node, #[trigger] spots_of(node)[k])
                && primitives_of(node)[k] == placed_there(
                node_below(node, spots_of(node)[k].0),
                spots_of(node)[k],
            ),
        forall|spot: Spot| #[trigger] is_spot_below(node, spot) ==> spots_of(node).contains(spot),
        spots_of(node).no_duplicates(),
    decreases node, 0nat,
{
    let own: Seq<Spot> = match node.mesh {
        Some(mesh) => Seq::new(mesh@.len(), |i: int| (Seq::<int>::empty(), i)),
        None => Seq::empty(),
    };
    let all = spots_of(node);
    let placed = primitives_of(node);
    assert(own.len() == own_primitives(node).len());
    let rest: Seq<Spot> = match node.children {
        Some(children) => spots_in(children@, children@.len()),
        None => Seq::empty(),
    };
    if let Some(children) = node.children {
        lemma_spots_in(children@, children@.len());
    }
    assert(all == own + rest);
    assert forall|k: int| 0 <= k < all.len() implies is_spot_below(node, #[trigger] all[k])
        && placed[k] == placed_there(node_below(node, all[k].0), all[k]) by {
        if k < own.len() {
            assert(all[k] == own[k]);
            assert(placed[k] == own_primitives(node)[k]);
        } else {
            let children = node.children->0;
            assert(all[k] == rest[k - own.len()]);
            assert(placed[k] == primitives_of_first(children@, children@.len())[k - own.len()]);
            assert(is_spot(children@, rest[k - own.len()]));
        }
    }
    assert forall|spot: Spot| #[trigger] is_spot_below(node, spot) implies all.contains(spot) by {
        if spot.0.len() == 0 {
            assert(spot.0 =~= Seq::<int>::empty());
            assert(own[spot.1] == spot);
            assert(all[spot.1] == spot);
        } else {
            let children = node.children->0;
            assert(is_spot(children@, spot));
            assert(rest.contains(spot));
            let k = choose|k: int| 0 <= k < rest.len() && rest[k] == spot;
            assert(all[own.len() + k] == spot);
        }
    }
    assert forall|i: int, j: int| 0 <= i < j < all.len() implies all[i] != all[j] by {
        if j < own.len() {
            assert(all[i] == own[i] && all[j] == own[j]);
        } else {
            assert(all[j] == rest[j - own.len()]);
            assert(is_spot((node.children->0)@, rest[j - own.len()]));
            if i < own.len() {
                assert(all[i].0.len() == 0);
            } else {
                assert(all[i] == rest[i - own.len()]);
                assert(rest[i - own.len()] != rest[j - own.len()]);
            }
        }
    }
}

proof fn lemma_spots_in(nodes: Seq<Node>, n: nat)
    requires
        n <= nodes.len(),
    ensures
        spots_in(nodes, n).len() == primitives_of_first(nodes, n).len(),
        forall|k: int|
            0 <= k < spots_in(nodes, n).len() ==> is_spot(nodes, #[trigger] spots_in(nodes, n)[k])
                && spots_in(nodes, n)[k].0[0] < n && primitives_of_first(nodes, n)[k]
                == placed_there(node_at(nodes, spots_in(nodes, n)[k].0), spots_in(nodes, n)[k]),
        forall|spot: Spot| #[trigger]
            is_spot(nodes, spot) && spot.0[0] < n ==> spots_in(nodes, n).contains(spot),
        spots_in(nodes, n).no_duplicates(),
    decreases nodes, n,
{
    let all = spots_in(nodes, n);
    let placed = primitives_of_first(nodes, n);
    if n > 0 {
        let m = (n - 1) as nat;
        let node = nodes[m as int];
        lemma_spots_in(nodes, m);
        lemma_spots_of(node);
        let before = spots_in(nodes, m);
        let own = spots_of(node);
        let last = below(m as int, own);
        assert(all == before + last);
        assert forall|k: int| 0 <= k < own.len() implies node_at(nodes, (#[trigger] last[k]).0)
            == node_below(node, own[k].0) by {
            let way = last[k].0;
            assert(way[0] == m);
            assert(way.drop_first() =~= own[k].0);
        }
        assert forall|k: int| 0 <= k < all.len() implies is_spot(nodes, #[trigger] all[k])
            && all[k].0[0] < n && placed[k] == placed_there(node_at(nodes, all[k].0), all[k]) by {
            if k < before.len() {
                assert(all[k] == before[k]);
                assert(placed[k] == primitives_of_first(nodes, m)[k]);
            } else {
                let j = k - before.len();
                assert(all[k] == last[j]);
                assert(is_spot_below(node, own[j]));
                assert(placed[k] == primitives_of(node)[j]);
            }
        }
        assert forall|spot: Spot| #[trigger] is_spot(nodes, spot) && spot.0[0] < n implies all.contains(
            spot,
        ) by {
            if spot.0[0] < m {
                assert(before.contains(spot));
                let k = choose|k: int| 0 <= k < before.len() && before[k] == spot;
                assert(all[k] == spot);
            } else {
                let rest = spot.0.drop_first();
                let inner: Spot = (rest, spot.1);
                assert(node_below(node, rest) == node_at(nodes, spot.0));
                assert(is_spot_below(node, inner));
                assert(own.contains(inner));
                let k = choose|k: int| 0 <= k < own.len() && own[k] == inner;
                assert(seq![m as int] + rest =~= spot.0);
                assert(last[k] == spot);
                assert(all[before.len() + k] == spot);
            }
        }
        assert forall|i: int, j: int| 0 <= i < j < all.len() implies all[i] != all[j] by {
            if j < before.len() {
                assert(all[i] == before[i] && all[j] == before[j]);
            } else {
                let y = j - before.len();
                assert(all[j] == last[y]);
                assert(last[y].0[0] == m);
                if i < before.len() {
                    assert(all[i] == before[i]);
                    assert(before[i].0[0] < m);
                } else {
                    let x = i - before.len();
                    assert(all[i] == last[x]);
                    if last[x] == last[y] {
                        assert(last[x].0.drop_first() =~= own[x].0);
                        assert(last[y].0.drop_first() =~= own[y].0);
                        assert(own[x] == own[y]);
                    }
                }
            }
        }
    } else {
        assert forall|spot: Spot| #[trigger] is_spot(nodes, spot) implies !(spot.0[0] < n) by {}
    }
}

// ---------------------------------------------------------------------------
// Scenes
// ---------------------------------------------------------------------------

/// Whether a place in the world is a node's: the first three rows of its matrix, row by
/// row, out of a matrix column by column.
pub open spec fn is_place_of(place: Seq<u32>, node: Node) -> bool {
    &&& place.len() == 12
    &&& forall|row: int, column: int|
        #![trigger place[row * 4 + column]]
        0 <= row < 3 && 0 <= column < 4 ==> place[row * 4 + column] == node.transform@[column * 4
            + row]
}

/// Whether a structure is made of a primitive: its geometry, its material, whether rays
/// pass it by, and every triangle of it that emits light.
pub open spec fn is_made_of(
    blas: LoadedBlas,
    primitive: Primitive,
    data: Map<u64, PrimitiveData>,
) -> bool {
    let lights = primitive.local_emissive_triangles@;
    &&& blas.geometry == data[primitive.unique_key]
    &&& blas.opaque != primitive.alpha_cutout
    &&& blas.material == primitive.material
    &&& blas.emissive_triangles@.len() == lights.len()
    &&& forall|i: int, c: int|
        #![trigger blas.emissive_triangles@[i], lights[i][c]]
        0 <= i < lights.len() && 0 <= c < 3 ==> {
            let t = blas.emissive_triangles@[i];
            let corner = if c == 0 {
                t.v0
            } else if c == 1 {
                t.v1
            } else {
                t.v2
            };
            &&& forall|x: int| 0 <= x < 3 ==> corner@[x] == #[trigger] lights[i][c]@[x]
            &&& forall|x: int| 0 <= x < 3 ==> t.emission@[x] == #[trigger] primitive.emission@[x]
        }
}

/// The first primitive with each key, by its index among the spots.
spec fn first_with_key(placed: Seq<Placed>, n: nat) -> Seq<int>
    decreases n,
{
    if 0 < n <= placed.len() {
        let before = first_with_key(placed, (n - 1) as nat);
        if holds_key(
            unique_primitives(placed, (n - 1) as nat),
            placed[n - 1].primitive.unique_key,
        ) {
            before
        } else {
            before.push(n - 1)
        }
    } else {
        Seq::empty()
    }
}

proof fn lemma_firsts(placed: Seq<Placed>, n: nat)
    requires
        n <= placed.len(),
    ensures
        first_with_key(placed, n).len() == unique_primitives(placed, n).len(),
        forall|s: int|
            0 <= s < first_with_key(placed, n).len() ==> 0 <= #[trigger] first_with_key(placed, n)[s]
                < n && placed[first_with_key(placed, n)[s]].primitive == unique_primitives(
                placed,
                n,
            )[s],
        forall|s: int, k: int|
            #![trigger first_with_key(placed, n)[s], placed[k]]
            0 <= s < first_with_key(placed, n).len() && 0 <= k < first_with_key(placed, n)[s]
                ==> placed[k].primitive.unique_key != placed[first_with_key(placed, n)[s]].primitive.unique_key,
        forall|k: int|
            0 <= k < n ==> holds_key(
                unique_primitives(placed, n),
                (#[trigger] placed[k]).primitive.unique_key,
            ),
    decreases n,
{
    if n > 0 {
        let m = (n - 1) as nat;
        lemma_firsts(placed, m);
        let before = unique_primitives(placed, m);
        let after = unique_primitives(placed, n);
        let key = placed[m as int].primitive.unique_key;
        let firsts = first_with_key(placed, n);
        assert forall|k: int| 0 <= k < n implies holds_key(
            after,
            (#[trigger] placed[k]).primitive.unique_key,
        ) by {
            let wanted = placed[k].primitive.unique_key;
            if holds_key(before, wanted) {
                let i = choose|i: int|
                    0 <= i < before.len() && (#[trigger] before[i]).unique_key == wanted;
                assert(after[i].unique_key == wanted);
            } else {
                assert(k == m);
                assert(after[after.len() - 1].unique_key == wanted);
            }
        }
        assert forall|s: int, k: int|
            #![trigger firsts[s], placed[k]]
            0 <= s < firsts.len() && 0 <= k < firsts[s] implies placed[k].primitive.unique_key
            != placed[firsts[s]].primitive.unique_key by {
            if s == first_with_key(placed, m).len() {
                assert(firsts[s] == m);
                assert(holds_key(before, placed[k].primitive.unique_key));
            } else {
                assert(firsts[s] == first_with_key(placed, m)[s]);
            }
        }
    }
}

/// Whether the spots are those of a scene: each once, and none left out.
pub open spec fn are_all_spots(nodes: Seq<Node>, spots: Seq<Spot>) -> bool {
    &&& spots.no_duplicates()
    &&& forall|spot: Spot| #[trigger] spots.contains(spot) <==> is_spot(nodes, spot)
}

/// Every primitive of every node that can be reached from the roots, whether or not the
/// nodes on the way show anything, becomes exactly one instance, where its node stands. It
/// refers to the structure of its geometry. There is one structure for each geometry, made
/// of the first primitive that has it.
pub proof fn law_every_reachable_primitive_is_loaded(
    scene: Scene,
    scene_data: SceneData,
    blases: Seq<LoadedBlas>,
    instances: Seq<(usize, [u32; 12])>,
) -> (r: (Seq<Spot>, Seq<int>))
    requires
        geometry_given(scene.placed(), scene_data.primitive_data_map@),
        laid_out(blases, instances, scene.placed(), scene_data.primitive_data_map@),
    ensures
        are_all_spots(scene.nodes@, r.0),
        instances.len() == r.0.len(),
        forall|k: int|
            0 <= k < instances.len() ==> {
                let key = spot_primitive(scene.nodes@, r.0[k]).unique_key;
                &&& is_place_of((#[trigger] instances[k]).1@, spot_node(scene.nodes@, r.0[k]))
                &&& instances[k].0 < blases.len()
                &&& blases[instances[k].0 as int].geometry
                    == scene_data.primitive_data_map@[key]
                &&& spot_primitive(
                    scene.nodes@,
                    r.0[r.1[instances[k].0 as int]],
                ).unique_key == key
            },
        r.1.len() == blases.len(),
        forall|s: int|
            0 <= s < blases.len() ==> 0 <= #[trigger] r.1[s] < r.0.len() && is_made_of(
                blases[s],
                spot_primitive(scene.nodes@, r.0[r.1[s]]),
                scene_data.primitive_data_map@,
            ),
        forall|s: int, k: int|
            #![trigger r.1[s], r.0[k]]
            0 <= s < blases.len() && 0 <= k < r.1[s] ==> spot_primitive(
                scene.nodes@,
                r.0[k],
            ).unique_key != spot_primitive(scene.nodes@, r.0[r.1[s]]).unique_key,
{
    let nodes = scene.nodes@;
    let n = nodes.len();
    let placed = scene.placed();
    let data = scene_data.primitive_data_map@;
    let spots = spots_in(nodes, n);
    lemma_spots_in(nodes, n);
    assert(placed =~= primitives_of_first(nodes, n));
    let firsts = first_with_key(placed, placed.len());
    let unique = unique_primitives(placed, placed.len());
    lemma_firsts(placed, placed.len());
    assert forall|spot: Spot| #[trigger] spots.contains(spot) <==> is_spot(nodes, spot) by {
        if spots.contains(spot) {
            let k = choose|k: int| 0 <= k < spots.len() && spots[k] == spot;
            assert(is_spot(nodes, spots[k]));
        }
        if is_spot(nodes, spot) {
            assert(spot.0[0] < n);
        }
    }
    assert forall|k: int| 0 <= k < spots.len() implies placed[k].primitive == #[trigger] spot_primitive(
        nodes,
        spots[k],
    ) && placed[k].transform == spot_node(nodes, spots[k]).transform by {
        assert(is_spot(nodes, spots[k]));
    }
    assert forall|k: int| 0 <= k < instances.len() implies {
        let key = spot_primitive(nodes, spots[k]).unique_key;
        &&& is_place_of((#[trigger] instances[k]).1@, spot_node(nodes, spots[k]))
        &&& instances[k].0 < blases.len()
        &&& blases[instances[k].0 as int].geometry == data[key]
        &&& spot_primitive(nodes, spots[firsts[instances[k].0 as int]]).unique_key == key
    } by {
        assert(instance_of(instances[k], placed[k], unique));
        let s = instances[k].0 as int;
        assert(built_for(blases[s], unique[s], data));
        assert(placed[k].primitive == spot_primitive(nodes, spots[k]));
        assert(0 <= firsts[s] < placed.len());
        assert(placed[firsts[s]].primitive == spot_primitive(nodes, spots[firsts[s]]));
        let place = instances[k].1@;
        assert forall|row: int, column: int|
            #![trigger place[row * 4 + column]]
            0 <= row < 3 && 0 <= column < 4 implies place[row * 4 + column] == spot_node(
            nodes,
            spots[k],
        ).transform@[column * 4 + row] by {
            let i = row * 4 + column;
            assert(i % 4 == column && i / 4 == row) by (nonlinear_arith)
                requires
                    i == row * 4 + column,
                    0 <= column < 4,
                    0 <= row < 3,
            ;
            assert(upper_rows(placed[k].transform@)[i] == placed[k].transform@[(i % 4) * 4 + i
                / 4]);
        }
    }
    assert forall|s: int| 0 <= s < blases.len() implies 0 <= #[trigger] firsts[s] < spots.len()
        && is_made_of(blases[s], spot_primitive(nodes, spots[firsts[s]]), data) by {
        assert(built_for(blases[s], unique[s], data));
        assert(placed[firsts[s]].primitive == spot_primitive(nodes, spots[firsts[s]]));
        let primitive = unique[s];
        let lights = primitive.local_emissive_triangles@;
        let made = blases[s].emissive_triangles@;
        assert forall|i: int, c: int|
            #![trigger made[i], lights[i][c]]
            0 <= i < lights.len() && 0 <= c < 3 implies {
            let t = made[i];
            let corner = if c == 0 {
                t.v0
            } else if c == 1 {
                t.v1
            } else {
                t.v2
            };
            &&& forall|x: int| 0 <= x < 3 ==> corner@[x] == #[trigger] lights[i][c]@[x]
            &&& forall|x: int| 0 <= x < 3 ==> t.emission@[x] == #[trigger] primitive.emission@[x]
        } by {
            assert(made[i].is(lights[i][0], lights[i][1], lights[i][2], primitive.emission));
        }
    }
    assert forall|s: int, k: int|
        #![trigger firsts[s], spots[k]]
        0 <= s < blases.len() && 0 <= k < firsts[s] implies spot_primitive(
        nodes,
        spots[k],
    ).unique_key != spot_primitive(nodes, spots[firsts[s]]).unique_key by {
        assert(placed[k].primitive == spot_primitive(nodes, spots[k]));
        assert(placed[firsts[s]].primitive == spot_primitive(nodes, spots[firsts[s]]));
    }
    (spots, firsts)
}

} // verus!
