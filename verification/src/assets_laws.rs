//! What is kept of assets that come in: every part of a scene is found under its key, a mesh
//! shines with all of its triangles or none, and images and samplers stay what they were.

use vstd::prelude::*;

use crate::assets::{
    group_instances, group_keys, is_largest, load_mesh, places_of, shines, AssetGroups,
    ResourceKey, SceneAssets,
};
use crate::error::SrResult;
use crate::render_graph::alias::MemoryLocation;
use crate::render_graph::resource::SamplerDesc;
use crate::scene::{
    geometry_given, na_mat4_to_vk_transform, to_vk_image, unique_primitives, EmissiveTriangle,
    GltfImage, GltfSampler, ImageUpload, Scene, SceneData,
};

verus! {

// ---------------------------------------------------------------------------
// Scenes
// ---------------------------------------------------------------------------

proof fn lemma_place_origin(
    instances: Seq<(usize, [u32; 12])>,
    blas: int,
    n: nat,
) -> (at: Seq<int>)
    requires
        n <= instances.len(),
    ensures
        at.len() == places_of(instances, blas, n).len(),
        forall|i: int|
            0 <= i < at.len() ==> 0 <= #[trigger] at[i] < n && instances[at[i]].0 == blas
                && instances[at[i]].1 == places_of(instances, blas, n)[i],
        forall|i: int, j: int| #![trigger at[i], at[j]] 0 <= i < j < at.len() ==> at[i] < at[j],
        forall|k: int| 0 <= k < n && (#[trigger] instances[k]).0 == blas ==> at.contains(k),
    decreases n,
{
    if n == 0 {
        Seq::empty()
    } else {
        let few = lemma_place_origin(instances, blas, (n - 1) as nat);
        if instances[n - 1].0 == blas {
            let at = few.push(n - 1);
            assert forall|k: int| 0 <= k < n && (#[trigger] instances[k]).0 == blas implies at.contains(
                k,
            ) by {
                if k < n - 1 {
                    let i = choose|i: int| 0 <= i < few.len() && few[i] == k;
                    assert(at[i] == k);
                } else {
                    assert(at[few.len() as int] == k);
                }
            }
            at
        } else {
            few
        }
    }
}

/// Instances stand under the key of their structure, each of them once and in their order,
/// and nothing else does.
pub proof fn law_instances_stand_under_their_key(
    keys: Vec<ResourceKey>,
    instances: Vec<(usize, [u32; 12])>,
    groups: Vec<(ResourceKey, Vec<[u32; 12]>)>,
    blas: int,
) -> (at: Seq<int>)
    requires
        call_ensures(group_instances, (&keys, &instances), groups),
        0 <= blas < keys@.len(),
    ensures
        groups@.len() == keys@.len(),
        groups@[blas].0 == keys@[blas],
        at.len() == groups@[blas].1@.len(),
        forall|i: int|
            0 <= i < at.len() ==> 0 <= #[trigger] at[i] < instances@.len() && instances@[at[i]].0
                == blas && instances@[at[i]].1 == groups@[blas].1@[i],
        forall|i: int, j: int| #![trigger at[i], at[j]] 0 <= i < j < at.len() ==> at[i] < at[j],
        forall|k: int|
            0 <= k < instances@.len() && (#[trigger] instances@[k]).0 == blas ==> at.contains(k),
{
    lemma_place_origin(instances@, blas, instances@.len())
}

/// A scene that is loaded is a group of its own, which none was before it. Each of its
/// structures and images has a key of that group and no two have the same; unloading the
/// group gives back exactly those keys, and leaves the groups that were there.
pub proof fn law_a_scene_is_unloaded_as_it_was_loaded(
    loading: &mut AssetGroups,
    unloading: &mut AssetGroups,
    scene: Scene,
    data: SceneData,
    assets: SceneAssets,
    keys: Vec<ResourceKey>,
    i: int,
    j: int,
    other: u64,
)
    requires
        old(loading).wf(),
        old(loading).next_group < u64::MAX,
        geometry_given(scene.placed(), data.primitive_data_map@),
        unique_primitives(scene.placed(), scene.placed().len()).len() + data.images@.len()
            <= usize::MAX,
        call_ensures(AssetGroups::load_scene, (loading, &scene, data), assets),
        *old(unloading) == *final(loading),
        call_ensures(AssetGroups::unload_scene, (unloading, assets.group), keys),
        0 <= i < assets.loaded.blases@.len(),
        0 <= j < assets.loaded.images@.len(),
        assets.loaded.blases@.len() + assets.loaded.images@.len() <= usize::MAX,
    ensures
        !old(loading).scene_groups@.contains_key(assets.group),
        final(loading).scene_groups@.contains_key(assets.group),
        final(loading).next_group > assets.group,
        assets.blas_keys@.len() == assets.loaded.blases@.len(),
        assets.image_keys@.len() == assets.loaded.images@.len(),
        assets.blas_keys@[i].group == assets.group,
        assets.image_keys@[j].group == assets.group,
        assets.blas_keys@[i] != assets.image_keys@[j],
        keys@.contains(assets.blas_keys@[i]),
        keys@.contains(assets.image_keys@[j]),
        keys@.len() == assets.blas_keys@.len() + assets.image_keys@.len(),
        forall|a: int, b: int| #![trigger keys@[a], keys@[b]]
            0 <= a < b < keys@.len() ==> keys@[a] != keys@[b],
        final(unloading).scene_groups@.contains_key(other)
            <==> old(loading).scene_groups@.contains_key(other),
        old(loading).scene_groups@.contains_key(other) ==> final(unloading).scene_groups@[other]
            == old(loading).scene_groups@[other],
        assets.loaded.images@.len() == data.images@.len(),
        assets.loaded.images@[j].raw_data == data.images@[j].raw_data,
        assets.loaded.textures == data.textures,
        assets.loaded.sampler_descs@.len() == data.samplers@.len(),
{
    let n = assets.loaded.blases@.len();
    let m = assets.loaded.images@.len();
    let all = group_keys(assets.group, 0, n + m);
    assert(keys@ == all);
    assert(all[i] == assets.blas_keys@[i]);
    assert(all[n + j] == assets.image_keys@[j]);
    assert(assets.blas_keys@[i].index == i);
    assert(assets.image_keys@[j].index == n + j);
    assert forall|a: int, b: int| #![trigger keys@[a], keys@[b]]
        0 <= a < b < keys@.len() implies keys@[a] != keys@[b] by {
        assert(all[a].index == a && all[b].index == b);
    }
}

// ---------------------------------------------------------------------------
// Meshes
// ---------------------------------------------------------------------------

/// Whether a number in floating point is zero, of either sign.
pub open spec fn is_zero(bits: u32) -> bool {
    bits == 0 || bits == 0x8000_0000
}

/// A mesh is taken exactly if its key is free, it is a list of triangles and all of its
/// indices lead to corners. All of its triangles emit light if it shines at all, each with
/// its own corners and the mesh's emission, in their order; none does if it does not.
pub proof fn law_a_mesh_shines_as_a_whole(
    registered: bool,
    positions: Vec<[u32; 3]>,
    indices: Vec<u32>,
    emission: [u32; 3],
    r: SrResult<Vec<EmissiveTriangle>>,
    t: int,
    c: int,
)
    requires
        call_ensures(load_mesh, (registered, &positions, &indices, emission), r),
        0 <= t,
        3 * t + 2 < indices@.len(),
        0 <= c < 3,
    ensures
        r is Ok <==> !registered && positions@.len() > 0 && indices@.len() > 0 && indices@.len() % 3
            == 0 && forall|i: int|
            0 <= i < indices@.len() ==> (#[trigger] indices@[i]) < positions@.len(),
        r matches Ok(triangles) ==> {
            let dark = is_zero(emission@[0]) && is_zero(emission@[1]) && is_zero(emission@[2]);
            &&& dark ==> triangles@.len() == 0
            &&& !dark ==> {
                &&& 3 * triangles@.len() == indices@.len()
                &&& triangles@[t].v0@[c] == positions@[indices@[3 * t] as int]@[c]
                &&& triangles@[t].v1@[c] == positions@[indices@[3 * t + 1] as int]@[c]
                &&& triangles@[t].v2@[c] == positions@[indices@[3 * t + 2] as int]@[c]
                &&& triangles@[t].emission@[c] == emission@[c]
            }
        },
{
    if r is Err && !registered && positions@.len() > 0 && indices@.len() > 0 && indices@.len() % 3
        == 0 && (forall|i: int|
        0 <= i < indices@.len() ==> (#[trigger] indices@[i]) < positions@.len()) {
        let index = choose|index: u32| #[trigger]
            is_largest(indices@, index) && index >= positions@.len();
        let k = choose|k: int| 0 <= k < indices@.len() && indices@[k] == index;
        assert(indices@[k] < positions@.len());
    }
    if let Ok(triangles) = r {
        let dark = is_zero(emission@[0]) && is_zero(emission@[1]) && is_zero(emission@[2]);
        if !dark {
            assert(shines(emission));
            assert(triangles@[t].is(
                positions@[indices@[3 * t] as int],
                positions@[indices@[3 * t + 1] as int],
                positions@[indices@[3 * t + 2] as int],
                emission,
            ));
        }
    }
}

/// A transform keeps its three rows: what stands in a row and a column of the matrix, which
/// is written column by column, stands there in the rows.
pub proof fn law_transforms_keep_their_rows(
    m: [u32; 16],
    rows: [u32; 12],
    row: int,
    column: int,
)
    requires
        call_ensures(na_mat4_to_vk_transform, (m,), rows),
        0 <= row < 3,
        0 <= column < 4,
    ensures
        rows@[4 * row + column] == m@[4 * column + row],
{
    let i = 4 * row + column;
    assert(i % 4 == column && i / 4 == row);
}

// ---------------------------------------------------------------------------
// Samplers and images
// ---------------------------------------------------------------------------

/// Vulkan's number for how a texture goes on beyond its edge.
pub open spec fn wraps_as(mode: gltf::texture::WrappingMode, number: i32) -> bool {
    match mode {
        gltf::texture::WrappingMode::Repeat => number == 0,
        gltf::texture::WrappingMode::MirroredRepeat => number == 1,
        gltf::texture::WrappingMode::ClampToEdge => number == 2,
    }
}

/// A sampler goes on beyond each edge as it is told for that edge, and smooths where it is
/// told to or nothing is said. Samplers that differ only in how they shrink enlarge alike.
pub proof fn law_samplers_do_as_they_are_told(
    sampler: GltfSampler,
    turned: GltfSampler,
    desc: SamplerDesc,
    turned_desc: SamplerDesc,
)
    requires
        call_ensures(GltfSampler::sampler_desc, (&sampler,), desc),
        call_ensures(GltfSampler::sampler_desc, (&turned,), turned_desc),
        turned.wrap_s_u == sampler.wrap_t_v,
        turned.wrap_t_v == sampler.wrap_s_u,
        turned.min_filter == sampler.min_filter,
        turned.mag_filter == sampler.mag_filter,
    ensures
        wraps_as(sampler.wrap_s_u, desc.address_mode_u),
        wraps_as(sampler.wrap_t_v, desc.address_mode_v),
        desc.address_mode_w == 0,
        turned_desc.address_mode_u == desc.address_mode_v,
        turned_desc.address_mode_v == desc.address_mode_u,
        turned_desc.min_filter == desc.min_filter,
        turned_desc.mag_filter == desc.mag_filter,
        sampler.mag_filter is None ==> desc.mag_filter == 1,
        sampler.min_filter is None ==> desc.min_filter == 1 && desc.mipmap_mode == 1,
        sampler.mag_filter matches Some(filter) ==> (desc.mag_filter == 0 <==> filter is Nearest),
        sampler.mag_filter matches Some(filter) ==> (desc.mag_filter == 1 <==> filter is Linear),
        sampler.min_filter matches Some(filter) ==> {
            &&& desc.min_filter == 1 <==> (filter is Linear || filter is LinearMipmapNearest
                || filter is LinearMipmapLinear)
            &&& desc.min_filter == 0 || desc.min_filter == 1
            &&& desc.mipmap_mode == 0 <==> (filter is NearestMipmapNearest
                || filter is LinearMipmapNearest)
            &&& desc.mipmap_mode == 0 || desc.mipmap_mode == 1
        },
{
}

/// How many channels a format of glTF has, and how many bytes each of them takes.
pub open spec fn layout_of(format: gltf::image::Format) -> (int, int) {
    match format {
        gltf::image::Format::R8 => (1, 1),
        gltf::image::Format::R8G8 => (2, 1),
        gltf::image::Format::R8G8B8 => (3, 1),
        gltf::image::Format::R8G8B8A8 => (4, 1),
        gltf::image::Format::R16 => (1, 2),
        gltf::image::Format::R16G16 => (2, 2),
        gltf::image::Format::R16G16B16 => (3, 2),
        gltf::image::Format::R16G16B16A16 => (4, 2),
        gltf::image::Format::R32G32B32FLOAT => (3, 4),
        gltf::image::Format::R32G32B32A32FLOAT => (4, 4),
    }
}

/// How many channels a format of Vulkan has, and how many bytes each of them takes: its
/// formats stand in blocks of one channel after the other.
pub open spec fn vulkan_layout(number: i32) -> (int, int) {
    if 9 <= number < 16 {
        (1, 1)
    } else if 16 <= number < 23 {
        (2, 1)
    } else if 23 <= number < 37 {
        (3, 1)
    } else if 37 <= number < 51 {
        (4, 1)
    } else if 70 <= number < 77 {
        (1, 2)
    } else if 77 <= number < 84 {
        (2, 2)
    } else if 84 <= number < 91 {
        (3, 2)
    } else if 91 <= number < 98 {
        (4, 2)
    } else if 104 <= number < 107 {
        (3, 4)
    } else if 107 <= number < 110 {
        (4, 4)
    } else {
        (0, 0)
    }
}

/// An image is made as it came: of its size, in a format with as many channels of as many
/// bytes, and of its bytes. It can be sampled.
pub proof fn law_images_stay_what_they_are(image: GltfImage, upload: ImageUpload)
    requires
        call_ensures(to_vk_image, (image,), upload),
        image.width <= u32::MAX,
        image.height <= u32::MAX,
    ensures
        upload.raw_data@ == image.raw_data@,
        upload.desc.extent.0 == image.width,
        upload.desc.extent.1 == image.height,
        upload.desc.extent.2 == 1,
        vulkan_layout(upload.desc.format) == layout_of(image.format),
        upload.desc.usage & 0x4 != 0,
        upload.desc.location == MemoryLocation::GpuOnly,
{
    assert(0x4u32 & 0x4u32 != 0) by (bit_vector);
}

} // verus!
