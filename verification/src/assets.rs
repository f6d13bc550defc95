//! The assets a renderer knows: scenes by groups, and meshes that come in while running.
use std::collections::HashMap;

use vstd::prelude::*;

use crate::error::{SrError, SrResult};
use crate::scene::{
    geometry_given, instance_of, laid_out, unique_primitives, EmissiveTriangle, GltfSampler,
    LoadedScene, Scene, SceneData,
};
use crate::text::{decimal, push_decimal};

verus! {

broadcast use vstd::std_specs::hash::group_hash_axioms;

// ---------------------------------------------------------------------------
// Groups
// ---------------------------------------------------------------------------

/// The key of an asset. The group ties together what one scene brought in.
#[derive(Clone, Copy, Debug, PartialEq, Eq, Hash, Structural)]
pub struct ResourceKey {
    pub group: u64,
    pub index: u64,
}

/// The assets of a scene that was loaded: the group, the keys, and the instances by the
/// key of their acceleration structure.
#[derive(Debug)]
pub struct SceneAssets {
    pub group: u64,
    pub blas_keys: Vec<ResourceKey>,
    pub image_keys: Vec<ResourceKey>,
    pub instances: Vec<(ResourceKey, Vec<[u32; 12]>)>,
    pub loaded: LoadedScene,
}

/// The groups of assets that are loaded.
pub struct AssetGroups {
    pub next_group: u64,
    pub scene_groups: HashMap<u64, Vec<ResourceKey>>,
}

/// The keys of a group from one index to another.
pub open spec fn group_keys(group: u64, from: nat, to: nat) -> Seq<ResourceKey> {
    Seq::new(
        (to - from) as nat,
        |i: int| ResourceKey { group, index: (from + i) as u64 },
    )
}

/// The places of the instances of one structure among the first `n`, in order.
pub open spec fn places_of(instances: Seq<(usize, [u32; 12])>, blas: int, n: nat) -> Seq<
    [u32; 12],
>
    decreases n,
{
    if 0 < n <= instances.len() {
        let before = places_of(instances, blas, (n - 1) as nat);
        if instances[n - 1].0 == blas {
            before.push(instances[n - 1].1)
        } else {
            before
        }
    } else {
        Seq::empty()
    }
}

/// Whether instances are grouped by the key of their structure, each group in order.
pub open spec fn grouped(
    groups: Seq<(ResourceKey, Vec<[u32; 12]>)>,
    keys: Seq<ResourceKey>,
    instances: Seq<(usize, [u32; 12])>,
) -> bool {
    &&& groups.len() == keys.len()
    &&& forall|i: int|
        0 <= i < groups.len() ==> (#[trigger] groups[i]).0 == keys[i] && groups[i].1@
            == places_of(instances, i, instances.len())
}

fn make_keys(group: u64, from: usize, to: usize) -> (keys: Vec<ResourceKey>)
    requires
        from <= to,
    ensures
        keys@ == group_keys(group, from as nat, to as nat),
{
    let mut keys: Vec<ResourceKey> = Vec::new();
    for i in from..to
        invariant
            from <= to,
            keys@ == group_keys(group, from as nat, i as nat),
    {
        keys.push(ResourceKey { group, index: i as u64 });
        assert(keys@ =~= group_keys(group, from as nat, (i + 1) as nat));
    }
    keys
}

/// Groups the places of instances by the key of their structure. Every key gets a group,
/// and the order of the instances stays.
pub fn group_instances(keys: &Vec<ResourceKey>, instances: &Vec<(usize, [u32; 12])>) -> (groups:
    Vec<(ResourceKey, Vec<[u32; 12]>)>)
    requires
        forall|i: int| 0 <= i < instances@.len() ==> (#[trigger] instances@[i]).0 < keys@.len(),
    ensures
        grouped(groups@, keys@, instances@),
{
    let mut groups: Vec<(ResourceKey, Vec<[u32; 12]>)> = Vec::new();
    for i in 0..keys.len()
        invariant
            groups@.len() == i,
            forall|j: int|
                0 <= j < i ==> (#[trigger] groups@[j]).0 == keys@[j] && groups@[j].1@.len() == 0,
    {
        groups.push((keys[i], Vec::new()));
    }
    proof {
        assert forall|j: int| 0 <= j < groups@.len() implies (#[trigger] groups@[j]).1@
            == places_of(instances@, j, 0) by {
            assert(groups@[j].1@ =~= places_of(instances@, j, 0));
        }
    }
    for i in 0..instances.len()
        invariant
            groups@.len() == keys@.len(),
            forall|j: int|
                0 <= j < instances@.len() ==> (#[trigger] instances@[j]).0 < keys@.len(),
            forall|j: int|
                0 <= j < groups@.len() ==> (#[trigger] groups@[j]).0 == keys@[j] && groups@[j].1@
                    == places_of(instances@, j, i as nat),
    {
        let (blas, place) = instances[i];
        let ghost before = groups@;
        groups[blas].1.push(place);
        proof {
            assert forall|j: int| 0 <= j < groups@.len() implies (#[trigger] groups@[j]).0
                == keys@[j] && groups@[j].1@ == places_of(instances@, j, (i + 1) as nat) by {
                assert(before[j].0 == keys@[j]);
            }
        }
    }
    groups
}

impl AssetGroups {
    /// Every group that is loaded was given out.
    pub open spec fn wf(self) -> bool {
        forall|g: u64| #[trigger] self.scene_groups@.contains_key(g) ==> g < self.next_group
    }

    /// No groups.
    pub fn new() -> (r: Self)
        ensures
            r.wf(),
            r.next_group == 0,
            r.scene_groups@ == Map::<u64, Vec<ResourceKey>>::empty(),
    {
        AssetGroups { next_group: 0, scene_groups: HashMap::new() }
    }

    /// Loads a scene as the next group: its structures and images get keys, first the
    /// structures and then the images, and its instances are grouped by key. Its textures,
    /// samplers and images come along.
    pub fn load_scene(&mut self, scene: &Scene, scene_data: SceneData) -> (assets: SceneAssets)
        requires
            old(self).wf(),
            old(self).next_group < u64::MAX,
            geometry_given(scene.placed(), scene_data.primitive_data_map@),
            unique_primitives(scene.placed(), scene.placed().len()).len()
                + scene_data.images@.len() <= usize::MAX,
        ensures
            final(self).wf(),
            assets.group == old(self).next_group,
            final(self).next_group == old(self).next_group + 1,
            laid_out(
                assets.loaded.blases@,
                assets.loaded.instances@,
                scene.placed(),
                scene_data.primitive_data_map@,
            ),
            assets.loaded.textures == scene_data.textures,
            assets.loaded.sampler_descs@ == scene_data.samplers@.map_values(
                |sampler: GltfSampler| sampler.desc(),
            ),
            assets.loaded.images@.len() == scene_data.images@.len(),
            forall|i: int|
                0 <= i < assets.loaded.images@.len() ==> (#[trigger] assets.loaded.images@[i]).desc
                    == scene_data.images@[i].desc() && assets.loaded.images@[i].raw_data
                    == scene_data.images@[i].raw_data,
            assets.blas_keys@ == group_keys(assets.group, 0, assets.loaded.blases@.len()),
            assets.image_keys@ == group_keys(
                assets.group,
                assets.loaded.blases@.len(),
                assets.loaded.blases@.len() + assets.loaded.images@.len(),
            ),
            grouped(assets.instances@, assets.blas_keys@, assets.loaded.instances@),
            final(self).scene_groups@.dom() == old(self).scene_groups@.dom().insert(assets.group),
            final(self).scene_groups@[assets.group]@ == group_keys(
                assets.group,
                0,
                assets.loaded.blases@.len() + assets.loaded.images@.len(),
            ),
            forall|g: u64| #[trigger]
                old(self).scene_groups@.contains_key(g) ==> final(self).scene_groups@[g] == old(
                    self,
                ).scene_groups@[g],
    {
        let group: u64 = self.next_group;
        self.next_group = group + 1;
        let loaded = scene.load_into_gpu(scene_data);
        let structures: usize = loaded.blases.len();
        let images: usize = loaded.images.len();
        let all: usize = structures + images;
        let blas_keys = make_keys(group, 0, structures);
        let image_keys = make_keys(group, structures, all);
        let keys = make_keys(group, 0, all);
        proof {
            let placed = scene.placed();
            let unique = unique_primitives(placed, placed.len());
            assert forall|i: int| 0 <= i < loaded.instances@.len() implies (
            #[trigger] loaded.instances@[i]).0 < blas_keys@.len() by {
                assert(instance_of(loaded.instances@[i], placed[i], unique));
            }
        }
        let instances = group_instances(&blas_keys, &loaded.instances);
        self.scene_groups.insert(group, keys);
        SceneAssets { group, blas_keys, image_keys, instances, loaded }
    }

    /// Forgets a group. The keys that are returned, those of every asset that its scene
    /// brought in, are no longer in use; there are none where the group is not loaded.
    pub fn unload_scene(&mut self, group: u64) -> (keys: Vec<ResourceKey>)
        requires
            old(self).wf(),
        ensures
            final(self).wf(),
            final(self).next_group == old(self).next_group,
            final(self).scene_groups@ == old(self).scene_groups@.remove(group),
            if old(self).scene_groups@.contains_key(group) {
                keys == old(self).scene_groups@[group]
            } else {
                keys@.len() == 0
            },
    {
        match self.scene_groups.remove(&group) {
            Some(keys) => keys,
            None => {
                proof {
                    assert(self.scene_groups@ =~= old(self).scene_groups@.remove(group));
                }
                Vec::new()
            },
        }
    }
}

/// A scene that is unloaded leaves the groups as they were before it was loaded.
pub proof fn law_unloading_undoes_loading(
    before: AssetGroups,
    loaded: AssetGroups,
    unloaded: AssetGroups,
    group: u64,
)
    requires
        before.wf(),
        group == before.next_group,
        loaded.scene_groups@.dom() == before.scene_groups@.dom().insert(group),
        forall|g: u64| #[trigger]
            before.scene_groups@.contains_key(g) ==> loaded.scene_groups@[g]
                == before.scene_groups@[g],
        unloaded.scene_groups@ == loaded.scene_groups@.remove(group),
    ensures
        unloaded.scene_groups@ == before.scene_groups@,
{
    assert(!before.scene_groups@.contains_key(group));
    assert(unloaded.scene_groups@ =~= before.scene_groups@);
}

/// Keys of different groups differ, and so do keys of one group at different places.
pub proof fn law_keys_are_unique(
    a: u64,
    b: u64,
    i: int,
    j: int,
    n: nat,
    m: nat,
)
    requires
        n <= u64::MAX,
        m <= u64::MAX,
        0 <= i < n,
        0 <= j < m,
        group_keys(a, 0, n)[i] == group_keys(b, 0, m)[j],
    ensures
        a == b,
        i == j,
{
    assert(group_keys(a, 0, n)[i].group == a);
    assert(group_keys(b, 0, m)[j].group == b);
    assert(group_keys(a, 0, n)[i].index == i);
    assert(group_keys(b, 0, m)[j].index == j);
}

/// No instance is lost: its place stands in the group of its structure.
pub proof fn law_no_instance_is_lost(instances: Seq<(usize, [u32; 12])>, blas: int, at: int, n: nat)
    requires
        0 <= at < n <= instances.len(),
        instances[at].0 == blas,
    ensures
        places_of(instances, blas, n).contains(instances[at].1),
    decreases n,
{
    let places = places_of(instances, blas, n);
    if at == n - 1 {
        assert(places.last() == instances[at].1);
    } else {
        law_no_instance_is_lost(instances, blas, at, (n - 1) as nat);
        let before = places_of(instances, blas, (n - 1) as nat);
        let i = choose|i: int| 0 <= i < before.len() && before[i] == instances[at].1;
        assert(places[i] == instances[at].1);
    }
}

// ---------------------------------------------------------------------------
// Meshes
// ---------------------------------------------------------------------------

/// Whether the bits of a number in floating point are not those of zero, which there is
/// with either sign.
pub open spec fn nonzero(bits: u32) -> bool {
    bits != 0 && bits != 0x8000_0000
}

/// Whether an emission is not zero in every color.
pub open spec fn shines(emission: [u32; 3]) -> bool {
    nonzero(emission[0]) || nonzero(emission[1]) || nonzero(emission[2])
}

/// Whether `m` is the largest of some numbers.
pub open spec fn is_largest(numbers: Seq<u32>, m: u32) -> bool {
    numbers.contains(m) && forall|i: int| 0 <= i < numbers.len() ==> #[trigger] numbers[i] <= m
}

/// Whether a mesh is a list of triangles.
pub open spec fn is_triangle_list(vertices: nat, indices: nat) -> bool {
    vertices > 0 && indices > 0 && indices % 3 == 0
}

/// What is said of a mesh that is no list of triangles.
pub open spec fn not_triangles(vertices: nat, indices: nat) -> Seq<char> {
    "load_mesh: invalid mesh ("@ + decimal(vertices) + " vertices, "@ + decimal(indices)
        + " indices — need non-empty vertices and a triangle-list index count)"@
}

/// What is said of a mesh with an index that leads nowhere.
pub open spec fn index_out_of_range(index: u32, vertices: nat) -> Seq<char> {
    "load_mesh: index "@ + decimal(index as nat) + " out of range for "@ + decimal(vertices)
        + " vertices"@
}

/// Whether these are the emissive triangles of a mesh: all of its triangles where it
/// shines, and none where it does not.
pub open spec fn are_emissive(
    triangles: Seq<EmissiveTriangle>,
    positions: Seq<[u32; 3]>,
    indices: Seq<u32>,
    emission: [u32; 3],
) -> bool {
    if shines(emission) {
        &&& triangles.len() == indices.len() / 3
        &&& forall|i: int|
            0 <= i < triangles.len() ==> (#[trigger] triangles[i]).is(
                positions[indices[3 * i] as int],
                positions[indices[3 * i + 1] as int],
                positions[indices[3 * i + 2] as int],
                emission,
            )
    } else {
        triangles.len() == 0
    }
}

fn is_nonzero(bits: u32) -> (r: bool)
    ensures
        r == nonzero(bits),
{
    bits != 0 && bits != 0x8000_0000
}

fn largest_index(indices: &Vec<u32>) -> (largest: u32)
    requires
        indices@.len() > 0,
    ensures
        is_largest(indices@, largest),
{
    let mut largest: u32 = indices[0];
    for i in 1..indices.len()
        invariant
            indices@.len() > 0,
            indices@.contains(largest),
            forall|j: int| 0 <= j < i ==> #[trigger] indices@[j] <= largest,
    {
        if indices[i] > largest {
            largest = indices[i];
            assert(indices@[i as int] == largest);
        }
    }
    largest
}

/// Checks a mesh that comes in while running, and finds the triangles of it that emit
/// light. `registered` says whether its key is taken. A mesh is refused where its key is
/// taken, where it is no list of triangles, and where an index leads nowhere, in this
/// order.
pub fn load_mesh(
    registered: bool,
    positions: &Vec<[u32; 3]>,
    indices: &Vec<u32>,
    emission: [u32; 3],
) -> (r: SrResult<Vec<EmissiveTriangle>>)
    ensures
        match r {
            Ok(triangles) => {
                &&& !registered
                &&& is_triangle_list(positions@.len(), indices@.len())
                &&& forall|i: int| 0 <= i < indices@.len() ==> #[trigger] indices@[i] < positions@.len()
                &&& are_emissive(triangles@, positions@, indices@, emission)
            },
            Err(e) => if registered {
                e.is_custom("load_mesh: an asset is already registered under this key"@)
            } else if !is_triangle_list(positions@.len(), indices@.len()) {
                e.is_custom(not_triangles(positions@.len(), indices@.len()))
            } else {
                exists|index: u32| #[trigger]
                    is_largest(indices@, index) && index >= positions@.len() && e.is_custom(
                        index_out_of_range(index, positions@.len()),
                    )
            },
        },
{
    if registered {
        return Err(
            SrError::new_custom(
                String::from_str("load_mesh: an asset is already registered under this key"),
            ),
        );
    }
    if positions.len() == 0 || indices.len() == 0 || indices.len() % 3 != 0 {
        let mut text = String::from_str("load_mesh: invalid mesh (");
        push_decimal(&mut text, positions.len() as u64);
        text.append(" vertices, ");
        push_decimal(&mut text, indices.len() as u64);
        text.append(" indices — need non-empty vertices and a triangle-list index count)");
        return Err(SrError::new_custom(text));
    }
    let largest: u32 = largest_index(indices);
    if largest as usize >= positions.len() {
        let mut text = String::from_str("load_mesh: index ");
        push_decimal(&mut text, largest as u64);
        text.append(" out of range for ");
        push_decimal(&mut text, positions.len() as u64);
        text.append(" vertices");
        return Err(SrError::new_custom(text));
    }
    let mut triangles: Vec<EmissiveTriangle> = Vec::new();
    if is_nonzero(emission[0]) || is_nonzero(emission[1]) || is_nonzero(emission[2]) {
        let total: usize = indices.len();
        let count: usize = total / 3;
        for i in 0..count
            invariant
                total == indices@.len(),
                count == total / 3,
                indices@.len() % 3 == 0,
                forall|j: int| 0 <= j < indices@.len() ==> #[trigger] indices@[j] < positions@.len(),
                triangles@.len() == i,
                forall|j: int|
                    0 <= j < i ==> (#[trigger] triangles@[j]).is(
                        positions@[indices@[3 * j] as int],
                        positions@[indices@[3 * j + 1] as int],
                        positions@[indices@[3 * j + 2] as int],
                        emission,
                    ),
        {
            assert(3 * i + 2 < total);
            let a: usize = indices[3 * i] as usize;
            let b: usize = indices[3 * i + 1] as usize;
            let c: usize = indices[3 * i + 2] as usize;
            triangles.push(
                EmissiveTriangle::new(positions[a], positions[b], positions[c], emission),
            );
        }
    }
    Ok(triangles)
}

} // verus!
