//! Meshes and scenes of the engine around the renderer.
use sunray::assets::ResourceKey;
use sunray::bevy_integration::asset::{
    asset_uuid, convert_mesh, ExtractedMeshAssets, IdSet, MeshIndices, MeshSource, SunrayMaterial, Topology,
};
use sunray::bevy_integration::gltf_scene::{spawn_gltf_scene, NodeInfo, PrimitiveInfo, Spawn};
use sunray::bevy_integration::state::SunrayScene;

#[test]
fn a_set_holds_nothing_twice() {
    let mut set = IdSet::new();
    for id in [3, 1, 3, 2] {
        set.insert(id);
    }
    assert!(set.contains(1) && set.contains(2) && set.contains(3) && !set.contains(4));
    let mut other = IdSet::new();
    other.insert(1);
    other.insert(9);
    let mut rest = set.difference(&other);
    rest.sort();
    assert_eq!(rest, vec![2, 3]);
    set.remove(2);
    assert!(!set.contains(2));
    set.retain(&other);
    assert!(set.contains(1) && !set.contains(3) && !set.contains(9));
}

#[test]
fn the_default_material_is_white_and_rough() {
    let m = SunrayMaterial::default();
    assert_eq!(m.base_color, [1.0f32.to_bits(); 4]);
    assert_eq!(m.metallic, 0.0f32.to_bits());
    assert_eq!(m.roughness, 1.0f32.to_bits());
    assert_eq!(m.emissive, [0.0f32.to_bits(); 3]);
    assert_eq!(m.emissive_strength, 1.0f32.to_bits());
    assert_eq!(m.ior, 1.5f32.to_bits());
    assert_eq!(m.transmission, 0.0f32.to_bits());
    let gltf = SunrayMaterial { metallic: 5, ..m }.to_gltf();
    assert_eq!(gltf.metallic_factor, 5);
    assert_eq!(gltf.base_color_factor, m.base_color);
    assert_eq!(gltf.ior, m.ior);
    assert_eq!(gltf.alpha_cutoff, 0.5f32.to_bits());
    assert!(gltf.opaque && !gltf.double_sided);
    assert!(gltf.base_color_texture_index.is_none() && gltf.normal_texture_index.is_none());
}

fn triangle() -> MeshSource {
    MeshSource {
        topology: Topology::TriangleList,
        positions: Some(vec![[1; 3], [2; 3], [3; 3]]),
        normals: None,
        uvs: None,
        tangents: None,
        indices: None,
    }
}

#[test]
fn what_is_missing_is_filled_in() {
    let (vertices, indices) = convert_mesh(&triangle()).expect("converted");
    assert_eq!(indices, vec![0, 1, 2]);
    assert_eq!(vertices.len(), 3);
    assert_eq!(vertices[1].position, [2; 3]);
    assert_eq!(vertices[1].normal, [0, 0, 1.0f32.to_bits()]);
    assert_eq!(vertices[1].tangent, [0; 4]);
    assert_eq!(vertices[1].base_color_tex_coord, [0; 2]);
}

#[test]
fn what_is_given_is_taken() {
    let mesh = MeshSource {
        normals: Some(vec![[7; 3]; 3]),
        uvs: Some(vec![[8, 9]]),
        tangents: Some(vec![[6; 4]; 3]),
        indices: Some(MeshIndices::U16(vec![2, 1, 0])),
        ..triangle()
    };
    let (vertices, indices) = convert_mesh(&mesh).expect("converted");
    assert_eq!(indices, vec![2, 1, 0]);
    assert_eq!(vertices[2].normal, [7; 3]);
    assert_eq!(vertices[2].tangent, [6; 4]);
    assert_eq!(vertices[0].emissive_tex, [8, 9]);
    assert_eq!(vertices[0].occlusion_tex, [8, 9]);
    assert_eq!(vertices[0].normal_tex_coord, [8, 9]);
    assert_eq!(vertices[0].metallic_roughness_tex_coord, [8, 9]);
    // The list is too short for the others.
    assert_eq!(vertices[1].base_color_tex_coord, [0, 0]);
    let mesh = MeshSource { indices: Some(MeshIndices::U32(vec![0, 0, 1, 1, 2, 2])), ..triangle() };
    assert_eq!(convert_mesh(&mesh).expect("converted").1, vec![0, 0, 1, 1, 2, 2]);
}

#[test]
fn meshes_that_cannot_be_converted_say_why() {
    let lines = MeshSource { topology: Topology::LineStrip, positions: None, ..triangle() };
    assert_eq!(
        convert_mesh(&lines).expect_err("lines"),
        "unsupported topology LineStrip (need TriangleList)"
    );
    let empty = MeshSource { positions: None, ..triangle() };
    assert_eq!(
        convert_mesh(&empty).expect_err("nothing"),
        "missing or non-Float32x3 POSITION attribute"
    );
    let odd = MeshSource { indices: Some(MeshIndices::U32(vec![0, 1, 2, 0])), ..triangle() };
    assert_eq!(
        convert_mesh(&odd).expect_err("four"),
        "index count 4 is not a multiple of 3"
    );
}

#[test]
fn a_mesh_is_converted_uploaded_and_let_go() {
    let mut assets = ExtractedMeshAssets::new();
    assets.begin_extraction();
    assert!(assets.reference(5));
    assert!(assets.convert(5, &triangle(), None).is_none());
    assert!(!assets.reference(5), "it waits already");
    assert!(assets.reference(6));
    assert!(assets.convert(6, &triangle(), Some(SunrayMaterial { ior: 3, ..SunrayMaterial::default() })).is_none());
    assets.end_extraction();
    let first = assets.next_pending().expect("waiting");
    assert_eq!((first.id, first.vertices.len(), first.indices.len()), (5, 3, 3));
    assert_eq!(first.material.ior, 1.5f32.to_bits());
    assets.note_upload(5, true);
    let second = assets.next_pending().expect("waiting");
    assert_eq!((second.id, second.material.ior), (6, 3));
    assets.note_upload(6, false);
    assert!(assets.next_pending().is_none());
    assert!(assets.orphans().is_empty());

    assets.begin_extraction();
    assert!(!assets.reference(6), "it failed");
    assets.end_extraction();
    assert_eq!(assets.orphans(), vec![5]);
    assets.note_unload(5);
    assert!(assets.orphans().is_empty());

    // Nobody refers to the mesh that failed: it is forgotten, and tried again.
    assets.begin_extraction();
    assets.end_extraction();
    assets.begin_extraction();
    assert!(assets.reference(6));
}

#[test]
fn a_mesh_that_cannot_be_converted_is_not_tried_again() {
    let mut assets = ExtractedMeshAssets::new();
    assert!(assets.reference(1));
    let bad = MeshSource { positions: None, ..triangle() };
    let text = assets.convert(1, &bad, None).expect("it fails");
    assert_eq!(text, "missing or non-Float32x3 POSITION attribute");
    assert!(!assets.reference(1));
    assets.end_extraction();
    assert!(!assets.reference(1));
}

fn node(id: u64, meshes: &[u64], children: &[u64]) -> NodeInfo {
    NodeInfo {
        id,
        primitives: meshes.iter().map(|m| PrimitiveInfo { mesh: *m, material: None }).collect(),
        children: children.to_vec(),
    }
}

fn shape(spawns: &[Spawn]) -> Vec<(u64, Option<usize>)> {
    spawns
        .iter()
        .map(|s| match s {
            Spawn::Node { node, parent } => (*node, *parent),
            Spawn::Primitive { parent, primitive } => (1000 + primitive.mesh, Some(*parent)),
        })
        .collect()
}

#[test]
fn a_hierarchy_is_spawned_from_its_roots() {
    // The child stands before its parent in the file.
    let nodes = vec![node(3, &[30], &[]), node(1, &[10, 11], &[3, 4]), node(4, &[], &[]), node(2, &[], &[])];
    assert_eq!(
        shape(&spawn_gltf_scene(&nodes)),
        vec![
            (1, None),
            (1010, Some(0)),
            (1011, Some(0)),
            (3, Some(0)),
            (1030, Some(3)),
            (4, Some(0)),
            (2, None),
        ]
    );
    assert!(spawn_gltf_scene(&vec![]).is_empty());
}

#[test]
fn children_that_are_absent_are_passed_over() {
    let nodes = vec![node(1, &[], &[9, 2]), node(2, &[], &[])];
    assert_eq!(shape(&spawn_gltf_scene(&nodes)), vec![(1, None), (2, Some(0))]);
}

#[test]
fn assets_go_by_their_group_and_index() {
    let key = ResourceKey { group: 0x0123_4567_89ab_cdef, index: 0xfedc_ba98_7654_3210 };
    assert_eq!(asset_uuid(key), 0x0123_4567_89ab_cdef_fedc_ba98_7654_3210);
    assert_eq!(asset_uuid(ResourceKey { group: 0, index: u64::MAX }), u64::MAX as u128);
    assert_ne!(
        asset_uuid(ResourceKey { group: 1, index: 0 }),
        asset_uuid(ResourceKey { group: 0, index: 1 })
    );
}

#[test]
fn every_node_is_spawned_once() {
    let nodes =
        vec![node(3, &[30], &[]), node(1, &[10], &[3, 4]), node(4, &[], &[2]), node(2, &[20, 21], &[])];
    let shape = shape(&spawn_gltf_scene(&nodes));
    for id in 1..5 {
        assert_eq!(shape.iter().filter(|(n, _)| *n == id).count(), 1);
    }
    // The primitives of a node stand right behind it.
    let at = shape.iter().position(|(n, _)| *n == 2).expect("spawned");
    assert_eq!(shape[at + 1..at + 3], [(1020, Some(at)), (1021, Some(at))]);
}

#[test]
fn asking_for_a_scene_counts() {
    let mut scene = SunrayScene::default();
    assert_eq!((scene.current(), scene.generation), (None, 0));
    scene.request("a.gltf".to_string());
    assert_eq!((scene.current(), scene.generation), (Some("a.gltf"), 1));
    scene.request("b.gltf".to_string());
    scene.clear();
    assert_eq!((scene.current(), scene.generation), (None, 3));
    let scene = SunrayScene::with_gltf("c.gltf".to_string());
    assert_eq!((scene.current(), scene.generation), (Some("c.gltf"), 1));
}
