//! What holds of meshes and materials that come in at runtime.

use vstd::prelude::*;

use crate::assets::ResourceKey;
use crate::bevy_integration::asset::{
    conversion_complaint, factors_of, indices_of, is_default, is_queued, is_vertex_of, uuid_of,
    ExtractedMeshAssets, Material, MeshIndices, MeshSource, PendingMesh, SunrayMaterial, Topology,
    Vertex,
};

verus! {

// ---------------------------------------------------------------------------
// Materials
// ---------------------------------------------------------------------------

/// Every factor of a material is handed on as it is given, so two materials that differ in
/// any factor come out different. Nothing else is made up: there are no textures, and the
/// surface is opaque, with one side.
pub proof fn law_every_factor_is_handed_on(a: SunrayMaterial, b: SunrayMaterial)
    ensures
        factors_of(a.gltf_material()) == a,
        a.gltf_material() == b.gltf_material() ==> a == b,
        ({
            let m = a.gltf_material();
            &&& m.base_color_factor == a.base_color
            &&& m.metallic_factor == a.metallic
            &&& m.roughness_factor == a.roughness
            &&& m.emissive_factor == a.emissive
            &&& m.emissive_strength == a.emissive_strength
            &&& m.ior == a.ior
            &&& m.transmission_factor == a.transmission
            &&& m.base_color_texture_index is None && m.metallic_roughness_texture_index is None
            &&& m.normal_texture_index is None && m.occlusion_texture_index is None
            &&& m.emissive_texture_index is None
            &&& m.opaque && !m.double_sided
            &&& m.alpha_cutoff == 0x3f00_0000
        }),
{
    assert(factors_of(a.gltf_material()) == a);
    assert(factors_of(b.gltf_material()) == b);
}

/// A material that nobody gives is white, dark and rough, is no metal and lets no light
/// through, with the refraction of glass: one, nought and one and a half by their bits.
pub proof fn law_the_default_material_is_plain(m: SunrayMaterial)
    requires
        is_default(m),
    ensures
        forall|i: int| 0 <= i < 4 ==> #[trigger] m.base_color@[i] == 0x3f80_0000,
        forall|i: int| 0 <= i < 3 ==> #[trigger] m.emissive@[i] == 0,
        m.metallic == 0,
        m.roughness == 0x3f80_0000,
        m.emissive_strength == 0x3f80_0000,
        m.ior == 0x3fc0_0000,
        m.transmission == 0,
{
}

// ---------------------------------------------------------------------------
// Meshes
// ---------------------------------------------------------------------------

/// How many corners a mesh's triangles name.
pub open spec fn named_corners(mesh: MeshSource) -> int {
    match mesh.indices {
        Some(MeshIndices::U16(list)) => list@.len() as int,
        Some(MeshIndices::U32(list)) => list@.len() as int,
        None => mesh.positions->0@.len() as int,
    }
}

/// A mesh is converted if and only if it is a list of triangles with positions, whole
/// triangles only.
pub proof fn law_whole_triangle_lists_are_converted(mesh: MeshSource)
    requires
        mesh.positions matches Some(positions) ==> positions@.len() <= u32::MAX,
    ensures
        conversion_complaint(mesh) is None <==> mesh.topology == Topology::TriangleList
            && mesh.positions is Some && named_corners(mesh) % 3 == 0,
{
}

/// The corners of a converted mesh are those of the mesh, each with its own attributes.
/// What is missing is neutral: normals face along the third axis, tangents and coordinates
/// are nought. All textures share the coordinates.
pub proof fn law_converted_corners_are_the_meshs(
    mesh: MeshSource,
    vertices: Seq<Vertex>,
    i: int,
)
    requires
        mesh.positions is Some,
        0 <= i < vertices.len(),
        is_vertex_of(vertices[i], mesh, i),
    ensures
        ({
            let v = vertices[i];
            &&& v.position == mesh.positions->0@[i]
            &&& match mesh.normals {
                Some(list) if i < list@.len() => v.normal@ == list@[i]@,
                _ => v.normal@[0] == 0 && v.normal@[1] == 0 && v.normal@[2] == 0x3f80_0000,
            }
            &&& match mesh.tangents {
                Some(list) if i < list@.len() => v.tangent@ == list@[i]@,
                _ => forall|c: int| 0 <= c < 4 ==> #[trigger] v.tangent@[c] == 0,
            }
            &&& match mesh.uvs {
                Some(list) if i < list@.len() => v.base_color_tex_coord@ == list@[i]@
                    && v.metallic_roughness_tex_coord@ == list@[i]@ && v.normal_tex_coord@
                    == list@[i]@ && v.occlusion_tex@ == list@[i]@ && v.emissive_tex@ == list@[i]@,
                _ => forall|c: int|
                    0 <= c < 2 ==> #[trigger] v.base_color_tex_coord@[c] == 0
                        && v.metallic_roughness_tex_coord@[c] == 0 && v.normal_tex_coord@[c] == 0
                        && v.occlusion_tex@[c] == 0 && v.emissive_tex@[c] == 0,
            }
        }),
{
}

/// The triangles of a converted mesh name the corners that the mesh's do, in order; a mesh
/// without indices takes its corners one after the other.
pub proof fn law_converted_triangles_are_the_meshs(mesh: MeshSource, i: int)
    requires
        mesh.positions is Some,
        mesh.positions->0@.len() <= u32::MAX,
        0 <= i < named_corners(mesh),
    ensures
        ({
            let indices = indices_of(mesh.indices, mesh.positions->0@.len());
            &&& indices.len() == named_corners(mesh)
            &&& match mesh.indices {
                Some(MeshIndices::U16(list)) => indices[i] as int == list@[i] as int,
                Some(MeshIndices::U32(list)) => indices[i] == list@[i],
                None => indices[i] == i,
            }
        }),
{
}

// ---------------------------------------------------------------------------
// Bookkeeping
// ---------------------------------------------------------------------------

/// A mesh is converted while nobody has tried it, and not again while it waits, is uploaded
/// or has failed.
pub proof fn law_meshes_are_converted_once(assets: ExtractedMeshAssets, id: u64, i: int)
    ensures
        0 <= i < assets.pending@.len() && assets.pending@[i].id == id ==> !assets.needs(id),
        assets.loaded@.contains(id) ==> !assets.needs(id),
        assets.failed@.contains(id) ==> !assets.needs(id),
        (forall|k: int| 0 <= k < assets.pending@.len() ==> (#[trigger] assets.pending@[k]).id != id)
            && !assets.loaded@.contains(id) && !assets.failed@.contains(id) ==> assets.needs(id),
{
}

/// The number of an asset gives back its group and its index.
pub proof fn law_asset_numbers_can_be_read_back(key: ResourceKey)
    ensures
        0 <= uuid_of(key) <= u128::MAX,
        uuid_of(key) / 0x1_0000_0000_0000_0000 == key.group,
        uuid_of(key) % 0x1_0000_0000_0000_0000 == key.index,
{
}

} // verus!
