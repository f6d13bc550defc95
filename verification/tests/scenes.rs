//! Scenes, their assets, and what glTF says.
use std::collections::HashMap;

use ash::vk;
use gltf::image::Format;
use gltf::texture::{MagFilter, MinFilter, WrappingMode};

use sunray::assets::{group_instances, load_mesh, AssetGroups, ResourceKey};
use sunray::error::{ErrorSource, SrError, SrResult};
use sunray::render_graph::alias::MemoryLocation;
use sunray::scene::{
    na_mat4_to_vk_transform, to_vk_image, EmissiveTriangle, Filter, FromGltf, GltfImage,
    GltfSampler, Node, PixelFormat, Primitive, PrimitiveData, SamplerAddressMode,
    SamplerMipmapMode, Scene, SceneData,
};

fn failed<T>(r: SrResult<T>) -> SrError {
    match r {
        Ok(_) => panic!("it worked"),
        Err(e) => e,
    }
}

fn custom(e: &SrError) -> &str {
    match e.get_source() {
        ErrorSource::Custom(text) => text,
        other => panic!("another source: {other:?}"),
    }
}

#[test]
fn formats_have_the_numbers_of_vulkan() {
    let all = [
        (Format::R8, vk::Format::R8_UNORM),
        (Format::R8G8, vk::Format::R8G8_UNORM),
        (Format::R8G8B8, vk::Format::R8G8B8_UNORM),
        (Format::R8G8B8A8, vk::Format::R8G8B8A8_UNORM),
        (Format::R16, vk::Format::R16_SFLOAT),
        (Format::R16G16, vk::Format::R16G16_SFLOAT),
        (Format::R16G16B16, vk::Format::R16G16B16_SFLOAT),
        (Format::R16G16B16A16, vk::Format::R16G16B16A16_SFLOAT),
        (Format::R32G32B32FLOAT, vk::Format::R32G32B32_SFLOAT),
        (Format::R32G32B32A32FLOAT, vk::Format::R32G32B32A32_SFLOAT),
    ];
    for (ours, theirs) in all {
        assert_eq!(PixelFormat::from_gltf(ours), PixelFormat(theirs.as_raw()));
    }
}

#[test]
fn filters_have_the_numbers_of_vulkan() {
    let nearest = (vk::Filter::NEAREST, vk::Filter::LINEAR);
    let near_level = vk::SamplerMipmapMode::NEAREST;
    let far_level = vk::SamplerMipmapMode::LINEAR;
    let all = [
        (MinFilter::Nearest, nearest.0, far_level),
        (MinFilter::Linear, nearest.1, far_level),
        (MinFilter::NearestMipmapNearest, nearest.0, near_level),
        (MinFilter::LinearMipmapNearest, nearest.1, near_level),
        (MinFilter::NearestMipmapLinear, nearest.0, far_level),
        (MinFilter::LinearMipmapLinear, nearest.1, far_level),
    ];
    for (ours, filter, mipmap) in all {
        assert_eq!(Filter::from_gltf(ours), Filter(filter.as_raw()));
        assert_eq!(SamplerMipmapMode::from_gltf(ours), SamplerMipmapMode(mipmap.as_raw()));
    }
    assert_eq!(Filter::from_gltf(MagFilter::Nearest), Filter(nearest.0.as_raw()));
    assert_eq!(Filter::from_gltf(MagFilter::Linear), Filter(nearest.1.as_raw()));
}

#[test]
fn wrapping_has_the_numbers_of_vulkan() {
    let all = [
        (WrappingMode::ClampToEdge, vk::SamplerAddressMode::CLAMP_TO_EDGE),
        (WrappingMode::MirroredRepeat, vk::SamplerAddressMode::MIRRORED_REPEAT),
        (WrappingMode::Repeat, vk::SamplerAddressMode::REPEAT),
    ];
    for (ours, theirs) in all {
        assert_eq!(SamplerAddressMode::from_gltf(ours), SamplerAddressMode(theirs.as_raw()));
    }
}

fn plain_sampler() -> GltfSampler {
    GltfSampler {
        min_filter: None,
        mag_filter: None,
        wrap_s_u: WrappingMode::ClampToEdge,
        wrap_t_v: WrappingMode::MirroredRepeat,
    }
}

#[test]
fn a_sampler_is_linear_unless_it_says_otherwise() {
    let desc = plain_sampler().sampler_desc();
    assert_eq!((desc.min_filter, desc.mag_filter, desc.mipmap_mode), (1, 1, 1));
    assert_eq!((desc.address_mode_u, desc.address_mode_v, desc.address_mode_w), (2, 1, 0));
    let desc = GltfSampler {
        min_filter: Some(MinFilter::NearestMipmapNearest),
        mag_filter: Some(MagFilter::Nearest),
        ..plain_sampler()
    }
    .sampler_desc();
    assert_eq!((desc.min_filter, desc.mag_filter, desc.mipmap_mode), (0, 0, 0));
}

#[test]
fn an_image_is_sampled_from_device_memory() {
    let upload = to_vk_image(GltfImage {
        format: Format::R8G8B8A8,
        width: 2,
        height: 1,
        raw_data: vec![1, 2, 3, 4, 5, 6, 7, 8],
    });
    assert_eq!(upload.desc.extent, (2, 1, 1));
    assert_eq!(upload.desc.format, vk::Format::R8G8B8A8_UNORM.as_raw());
    assert_eq!(upload.desc.tiling, vk::ImageTiling::OPTIMAL.as_raw());
    assert_eq!(upload.desc.usage, vk::ImageUsageFlags::SAMPLED.as_raw());
    assert_eq!(upload.desc.location, MemoryLocation::GpuOnly);
    assert_eq!(upload.desc.name, "gltf image");
    assert_eq!(upload.raw_data, vec![1, 2, 3, 4, 5, 6, 7, 8]);
}

#[test]
fn a_transform_is_its_three_upper_rows() {
    let mut columns = [0u32; 16];
    for i in 0..16 {
        columns[i] = i as u32;
    }
    assert_eq!(na_mat4_to_vk_transform(columns), [0, 4, 8, 12, 1, 5, 9, 13, 2, 6, 10, 14]);
}

#[test]
fn an_emissive_triangle_is_padded_with_zeros() {
    let t = EmissiveTriangle::new([1, 2, 3], [4, 5, 6], [7, 8, 9], [10, 11, 12]);
    assert_eq!(t.v0, [1, 2, 3, 0]);
    assert_eq!(t.v1, [4, 5, 6, 0]);
    assert_eq!(t.v2, [7, 8, 9, 0]);
    assert_eq!(t.emission, [10, 11, 12, 0]);
}

fn primitive(unique_key: u64, material: u64) -> Primitive {
    Primitive {
        unique_key,
        material,
        alpha_cutout: material == 2,
        emission: [1, 1, 1],
        local_emissive_triangles: if material == 3 {
            vec![[[1, 0, 0], [0, 1, 0], [0, 0, 1]]]
        } else {
            vec![]
        },
    }
}

fn place(x: u32) -> [u32; 16] {
    let mut m = [0; 16];
    m[12] = x;
    m
}

fn placed_at(x: u32) -> [u32; 12] {
    na_mat4_to_vk_transform(place(x))
}

/// A node with two primitives and a child that shows one of them again and another one;
/// behind it a node without a mesh.
fn scene() -> Scene {
    Scene::new(vec![
        Node {
            mesh: Some(vec![primitive(10, 1), primitive(11, 2)]),
            children: Some(vec![Node {
                mesh: Some(vec![primitive(11, 2), primitive(12, 3)]),
                children: None,
                transform: place(7),
            }]),
            transform: place(5),
        },
        Node { mesh: None, children: None, transform: place(9) },
    ])
    .expect("a scene")
}

fn scene_data() -> SceneData {
    SceneData {
        textures: vec![4],
        samplers: vec![plain_sampler()],
        images: vec![
            GltfImage { format: Format::R8, width: 1, height: 1, raw_data: vec![9] },
            GltfImage { format: Format::R8G8, width: 1, height: 1, raw_data: vec![8, 7] },
        ],
        primitive_data_map: HashMap::from([
            (10, PrimitiveData { vertex_buffer: 100, index_buffer: 101 }),
            (11, PrimitiveData { vertex_buffer: 110, index_buffer: 111 }),
            (12, PrimitiveData { vertex_buffer: 120, index_buffer: 121 }),
        ]),
    }
}

#[test]
fn a_scene_keeps_its_nodes() {
    assert_eq!(scene().nodes().len(), 2);
    assert_eq!(scene().nodes()[0].transform, place(5));
}

#[test]
fn each_geometry_is_built_once() {
    let loaded = scene().load_into_gpu(scene_data());
    let vertex_buffers: Vec<u64> = loaded.blases.iter().map(|b| b.geometry.vertex_buffer).collect();
    assert_eq!(vertex_buffers, vec![100, 110, 120]);
    assert_eq!(loaded.blases.iter().map(|b| b.opaque).collect::<Vec<_>>(), vec![true, false, true]);
    assert_eq!(loaded.blases.iter().map(|b| b.material).collect::<Vec<_>>(), vec![1, 2, 3]);
    assert_eq!(loaded.blases[2].emissive_triangles.len(), 1);
    assert_eq!(loaded.blases[2].emissive_triangles[0].v1, [0, 1, 0, 0]);
    assert!(loaded.blases[0].emissive_triangles.is_empty());
    assert_eq!(
        loaded.instances,
        vec![(0, placed_at(5)), (1, placed_at(5)), (1, placed_at(7)), (2, placed_at(7))]
    );
    assert_eq!(loaded.textures, vec![4]);
    assert_eq!(loaded.sampler_descs.len(), 1);
    assert_eq!(loaded.images[0].raw_data, vec![9]);
    assert_eq!(loaded.images[1].raw_data, vec![8, 7]);
}

#[test]
fn a_scene_is_loaded_as_a_group() {
    let mut groups = AssetGroups::new();
    let first = groups.load_scene(&scene(), scene_data());
    assert_eq!(first.group, 0);
    let key = |index: u64| ResourceKey { group: 0, index };
    assert_eq!(first.blas_keys, vec![key(0), key(1), key(2)]);
    assert_eq!(first.image_keys, vec![key(3), key(4)]);
    assert_eq!(first.loaded.textures, vec![4]);
    assert_eq!(first.loaded.sampler_descs, vec![plain_sampler().sampler_desc()]);
    assert_eq!(first.loaded.images.len(), 2);
    assert_eq!(first.loaded.images[0].raw_data, vec![9]);
    assert_eq!(first.loaded.images[1].raw_data, vec![8, 7]);
    assert_eq!(
        first.instances,
        vec![
            (key(0), vec![placed_at(5)]),
            (key(1), vec![placed_at(5), placed_at(7)]),
            (key(2), vec![placed_at(7)]),
        ]
    );
    let second = groups.load_scene(&scene(), scene_data());
    assert_eq!(second.group, 1);
    assert_eq!(groups.unload_scene(0), vec![key(0), key(1), key(2), key(3), key(4)]);
    assert!(groups.unload_scene(0).is_empty());
    assert_eq!(groups.scene_groups.len(), 1);
    assert_eq!(groups.unload_scene(1).len(), 5);
    assert_eq!(groups.next_group, 2);
}

#[test]
fn a_structure_without_instances_keeps_its_group() {
    let keys = vec![ResourceKey { group: 1, index: 0 }, ResourceKey { group: 1, index: 1 }];
    let groups = group_instances(&keys, &vec![(1, [3; 12])]);
    assert_eq!(groups, vec![(keys[0], vec![]), (keys[1], vec![[3; 12]])]);
}

const BRIGHT: u32 = 1.0f32.to_bits();

#[test]
fn a_mesh_that_shines_is_all_emissive() {
    let positions = vec![[1, 1, 1], [2, 2, 2], [3, 3, 3], [4, 4, 4]];
    let triangles = load_mesh(false, &positions, &vec![0, 1, 2, 3, 2, 1], [0, BRIGHT, 0])
        .expect("a good mesh");
    assert_eq!(triangles.len(), 2);
    assert_eq!(triangles[1].v0, [4, 4, 4, 0]);
    assert_eq!(triangles[1].v2, [2, 2, 2, 0]);
    assert_eq!(triangles[0].emission, [0, BRIGHT, 0, 0]);
}

#[test]
fn a_dark_mesh_has_no_emissive_triangles() {
    let positions = vec![[0; 3], [1; 3], [2; 3]];
    let minus = (-1.0f32).to_bits();
    let minus_zero = (-0.0f32).to_bits();
    let nan = f32::NAN.to_bits();
    for emission in [[0, 0, 0], [minus_zero, 0, minus_zero]] {
        let triangles = load_mesh(false, &positions, &vec![0, 1, 2], emission).expect("a mesh");
        assert!(triangles.is_empty());
    }
    let infinite = f32::INFINITY.to_bits();
    for odd in [infinite, minus, nan] {
        let triangles = load_mesh(false, &positions, &vec![0, 1, 2], [0, 0, odd]).expect("a mesh");
        assert_eq!(triangles.len(), 1);
        assert_eq!(triangles[0].emission, [0, 0, odd, 0]);
    }
}

#[test]
fn bad_meshes_are_refused() {
    let positions = vec![[0; 3], [1; 3], [2; 3]];
    let e = failed(load_mesh(true, &positions, &vec![0, 1, 2], [0; 3]));
    assert_eq!(custom(&e), "load_mesh: an asset is already registered under this key");
    let e = failed(load_mesh(false, &positions, &vec![0, 1], [0; 3]));
    assert_eq!(
        custom(&e),
        "load_mesh: invalid mesh (3 vertices, 2 indices — need non-empty vertices and a triangle-list index count)"
    );
    let e = failed(load_mesh(false, &vec![], &vec![0, 1, 2], [0; 3]));
    assert!(custom(&e).starts_with("load_mesh: invalid mesh (0 vertices, 3 indices"));
    let e = failed(load_mesh(false, &positions, &vec![], [0; 3]));
    assert!(custom(&e).starts_with("load_mesh: invalid mesh (3 vertices, 0 indices"));
    let e = failed(load_mesh(false, &positions, &vec![0, 7, 3], [0; 3]));
    assert_eq!(custom(&e), "load_mesh: index 7 out of range for 3 vertices");
}
