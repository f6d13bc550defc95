//! Scenes: trees of nodes with meshes, and what is built from them.
//!
//! Numbers in floating point are carried by their bits. Nothing here computes with
//! them.
use std::collections::HashMap;

use vstd::prelude::*;

use crate::error::SrResult;
use crate::render_graph::alias::MemoryLocation;
use crate::render_graph::resource::{ImageDesc, SamplerDesc};

verus! {

broadcast use vstd::std_specs::hash::group_hash_axioms;

// ---------------------------------------------------------------------------
// What glTF says, in Vulkan's numbers
// ---------------------------------------------------------------------------

/// The pixel formats of glTF images.
#[verifier::external_type_specification]
pub struct ExGltfFormat(gltf::image::Format);

/// How glTF samplers shrink a texture.
#[verifier::external_type_specification]
pub struct ExMinFilter(gltf::texture::MinFilter);

/// How glTF samplers enlarge a texture.
#[verifier::external_type_specification]
pub struct ExMagFilter(gltf::texture::MagFilter);

/// What glTF samplers do outside a texture.
#[verifier::external_type_specification]
pub struct ExWrappingMode(gltf::texture::WrappingMode);

/// A pixel format, by its Vulkan number.
#[derive(Clone, Copy, Debug, PartialEq, Eq, Structural)]
pub struct PixelFormat(pub i32);

/// A texture filter, by its Vulkan number.
#[derive(Clone, Copy, Debug, PartialEq, Eq, Structural)]
pub struct Filter(pub i32);

/// A choice among mip levels, by its Vulkan number.
#[derive(Clone, Copy, Debug, PartialEq, Eq, Structural)]
pub struct SamplerMipmapMode(pub i32);

/// What lies outside a texture, by its Vulkan number.
#[derive(Clone, Copy, Debug, PartialEq, Eq, Structural)]
pub struct SamplerAddressMode(pub i32);

pub const FORMAT_R8_UNORM: i32 = 9;
pub const FORMAT_R8G8_UNORM: i32 = 16;
pub const FORMAT_R8G8B8_UNORM: i32 = 23;
pub const FORMAT_R8G8B8A8_UNORM: i32 = 37;
pub const FORMAT_R16_SFLOAT: i32 = 76;
pub const FORMAT_R16G16_SFLOAT: i32 = 83;
pub const FORMAT_R16G16B16_SFLOAT: i32 = 90;
pub const FORMAT_R16G16B16A16_SFLOAT: i32 = 97;
pub const FORMAT_R32G32B32_SFLOAT: i32 = 106;
pub const FORMAT_R32G32B32A32_SFLOAT: i32 = 109;

pub const FILTER_NEAREST: i32 = 0;
pub const FILTER_LINEAR: i32 = 1;

pub const MIPMAP_NEAREST: i32 = 0;
pub const MIPMAP_LINEAR: i32 = 1;

pub const ADDRESS_REPEAT: i32 = 0;
pub const ADDRESS_MIRRORED_REPEAT: i32 = 1;
pub const ADDRESS_CLAMP_TO_EDGE: i32 = 2;

pub const TILING_OPTIMAL: i32 = 0;
pub const USAGE_SAMPLED: u32 = 4;

/// A value of Vulkan's that stands for one of glTF's.
pub trait FromGltf<T>: Sized {
    /// The value that stands for `value`.
    spec fn of_gltf(value: T) -> Self;

    /// The value that stands for `value`.
    fn from_gltf(value: T) -> (r: Self)
        ensures
            r == Self::of_gltf(value),
    ;
}

impl FromGltf<gltf::image::Format> for PixelFormat {
    /// Eight bits are read as fractions of one, sixteen and more as floating point.
    open spec fn of_gltf(value: gltf::image::Format) -> Self {
        match value {
            gltf::image::Format::R8 => PixelFormat(FORMAT_R8_UNORM),
            gltf::image::Format::R8G8 => PixelFormat(FORMAT_R8G8_UNORM),
            gltf::image::Format::R8G8B8 => PixelFormat(FORMAT_R8G8B8_UNORM),
            gltf::image::Format::R8G8B8A8 => PixelFormat(FORMAT_R8G8B8A8_UNORM),
            gltf::image::Format::R16 => PixelFormat(FORMAT_R16_SFLOAT),
            gltf::image::Format::R16G16 => PixelFormat(FORMAT_R16G16_SFLOAT),
            gltf::image::Format::R16G16B16 => PixelFormat(FORMAT_R16G16B16_SFLOAT),
            gltf::image::Format::R16G16B16A16 => PixelFormat(FORMAT_R16G16B16A16_SFLOAT),
            gltf::image::Format::R32G32B32FLOAT => PixelFormat(FORMAT_R32G32B32_SFLOAT),
            gltf::image::Format::R32G32B32A32FLOAT => PixelFormat(FORMAT_R32G32B32A32_SFLOAT),
        }
    }

    fn from_gltf(value: gltf::image::Format) -> (r: Self) {
        match value {
            gltf::image::Format::R8 => PixelFormat(FORMAT_R8_UNORM),
            gltf::image::Format::R8G8 => PixelFormat(FORMAT_R8G8_UNORM),
            gltf::image::Format::R8G8B8 => PixelFormat(FORMAT_R8G8B8_UNORM),
            gltf::image::Format::R8G8B8A8 => PixelFormat(FORMAT_R8G8B8A8_UNORM),
            gltf::image::Format::R16 => PixelFormat(FORMAT_R16_SFLOAT),
            gltf::image::Format::R16G16 => PixelFormat(FORMAT_R16G16_SFLOAT),
            gltf::image::Format::R16G16B16 => PixelFormat(FORMAT_R16G16B16_SFLOAT),
            gltf::image::Format::R16G16B16A16 => PixelFormat(FORMAT_R16G16B16A16_SFLOAT),
            gltf::image::Format::R32G32B32FLOAT => PixelFormat(FORMAT_R32G32B32_SFLOAT),
            gltf::image::Format::R32G32B32A32FLOAT => PixelFormat(FORMAT_R32G32B32A32_SFLOAT),
        }
    }
}

impl FromGltf<gltf::texture::MinFilter> for SamplerMipmapMode {
    /// Only the two filters that ask for the nearest mip level get it.
    open spec fn of_gltf(value: gltf::texture::MinFilter) -> Self {
        if value is NearestMipmapNearest || value is LinearMipmapNearest {
            SamplerMipmapMode(MIPMAP_NEAREST)
        } else {
            SamplerMipmapMode(MIPMAP_LINEAR)
        }
    }

    fn from_gltf(value: gltf::texture::MinFilter) -> (r: Self) {
        match value {
            gltf::texture::MinFilter::Nearest => SamplerMipmapMode(MIPMAP_LINEAR),
            gltf::texture::MinFilter::Linear => SamplerMipmapMode(MIPMAP_LINEAR),
            gltf::texture::MinFilter::NearestMipmapNearest => SamplerMipmapMode(MIPMAP_NEAREST),
            gltf::texture::MinFilter::LinearMipmapNearest => SamplerMipmapMode(MIPMAP_NEAREST),
            gltf::texture::MinFilter::NearestMipmapLinear => SamplerMipmapMode(MIPMAP_LINEAR),
            gltf::texture::MinFilter::LinearMipmapLinear => SamplerMipmapMode(MIPMAP_LINEAR),
        }
    }
}

impl FromGltf<gltf::texture::MinFilter> for Filter {
    /// The filter within one mip level.
    open spec fn of_gltf(value: gltf::texture::MinFilter) -> Self {
        if value is Nearest || value is NearestMipmapNearest || value is NearestMipmapLinear {
            Filter(FILTER_NEAREST)
        } else {
            Filter(FILTER_LINEAR)
        }
    }

    fn from_gltf(value: gltf::texture::MinFilter) -> (r: Self) {
        match value {
            gltf::texture::MinFilter::Nearest => Filter(FILTER_NEAREST),
            gltf::texture::MinFilter::Linear => Filter(FILTER_LINEAR),
            gltf::texture::MinFilter::NearestMipmapNearest => Filter(FILTER_NEAREST),
            gltf::texture::MinFilter::LinearMipmapNearest => Filter(FILTER_LINEAR),
            gltf::texture::MinFilter::NearestMipmapLinear => Filter(FILTER_NEAREST),
            gltf::texture::MinFilter::LinearMipmapLinear => Filter(FILTER_LINEAR),
        }
    }
}

impl FromGltf<gltf::texture::MagFilter> for Filter {
    open spec fn of_gltf(value: gltf::texture::MagFilter) -> Self {
        if value is Nearest {
            Filter(FILTER_NEAREST)
        } else {
            Filter(FILTER_LINEAR)
        }
    }

    fn from_gltf(value: gltf::texture::MagFilter) -> (r: Self) {
        match value {
            gltf::texture::MagFilter::Nearest => Filter(FILTER_NEAREST),
            gltf::texture::MagFilter::Linear => Filter(FILTER_LINEAR),
        }
    }
}

impl FromGltf<gltf::texture::WrappingMode> for SamplerAddressMode {
    open spec fn of_gltf(value: gltf::texture::WrappingMode) -> Self {
        match value {
            gltf::texture::WrappingMode::ClampToEdge => SamplerAddressMode(ADDRESS_CLAMP_TO_EDGE),
            gltf::texture::WrappingMode::MirroredRepeat => SamplerAddressMode(ADDRESS_MIRRORED_REPEAT),
            gltf::texture::WrappingMode::Repeat => SamplerAddressMode(ADDRESS_REPEAT),
        }
    }

    fn from_gltf(value: gltf::texture::WrappingMode) -> (r: Self) {
        match value {
            gltf::texture::WrappingMode::ClampToEdge => SamplerAddressMode(ADDRESS_CLAMP_TO_EDGE),
            gltf::texture::WrappingMode::MirroredRepeat => SamplerAddressMode(ADDRESS_MIRRORED_REPEAT),
            gltf::texture::WrappingMode::Repeat => SamplerAddressMode(ADDRESS_REPEAT),
        }
    }
}

// ---------------------------------------------------------------------------
// Samplers and images
// ---------------------------------------------------------------------------

/// A sampler as glTF describes it.
#[derive(Clone, Copy, Debug)]
pub struct GltfSampler {
    pub min_filter: Option<gltf::texture::MinFilter>,
    pub mag_filter: Option<gltf::texture::MagFilter>,
    pub wrap_s_u: gltf::texture::WrappingMode,
    pub wrap_t_v: gltf::texture::WrappingMode,
}

impl GltfSampler {
    /// The filter for shrinking; linear where glTF names none.
    pub open spec fn shrinking(self) -> gltf::texture::MinFilter {
        match self.min_filter {
            Some(filter) => filter,
            None => gltf::texture::MinFilter::Linear,
        }
    }

    /// The filter for enlarging; linear where glTF names none.
    pub open spec fn enlarging(self) -> gltf::texture::MagFilter {
        match self.mag_filter {
            Some(filter) => filter,
            None => gltf::texture::MagFilter::Linear,
        }
    }

    /// The sampler in Vulkan's terms. glTF has no third direction: it repeats.
    pub open spec fn desc(self) -> SamplerDesc {
        SamplerDesc {
            min_filter: Filter::of_gltf(self.shrinking()).0,
            mag_filter: Filter::of_gltf(self.enlarging()).0,
            address_mode_u: SamplerAddressMode::of_gltf(self.wrap_s_u).0,
            address_mode_v: SamplerAddressMode::of_gltf(self.wrap_t_v).0,
            address_mode_w: ADDRESS_REPEAT,
            mipmap_mode: SamplerMipmapMode::of_gltf(self.shrinking()).0,
        }
    }

    /// The sampler in Vulkan's terms.
    pub fn sampler_desc(&self) -> (desc: SamplerDesc)
        ensures
            desc == self.desc(),
    {
        let shrinking = match self.min_filter {
            Some(filter) => filter,
            None => gltf::texture::MinFilter::Linear,
        };
        let enlarging = match self.mag_filter {
            Some(filter) => filter,
            None => gltf::texture::MagFilter::Linear,
        };
        let min_filter: Filter = Filter::from_gltf(shrinking);
        let mag_filter: Filter = Filter::from_gltf(enlarging);
        SamplerDesc {
            min_filter: min_filter.0,
            mag_filter: mag_filter.0,
            address_mode_u: SamplerAddressMode::from_gltf(self.wrap_s_u).0,
            address_mode_v: SamplerAddressMode::from_gltf(self.wrap_t_v).0,
            address_mode_w: ADDRESS_REPEAT,
            mipmap_mode: SamplerMipmapMode::from_gltf(shrinking).0,
        }
    }
}

/// An image as glTF holds it.
#[derive(Debug)]
pub struct GltfImage {
    pub format: gltf::image::Format,
    pub width: usize,
    pub height: usize,
    pub raw_data: Vec<u8>,
}

/// An image to make, and the bytes to fill it with.
#[derive(Debug)]
pub struct ImageUpload {
    pub desc: ImageDesc,
    pub raw_data: Vec<u8>,
}

impl GltfImage {
    /// What is made of this image: one to sample from, in device memory.
    pub open spec fn desc(self) -> ImageDesc {
        ImageDesc {
            extent: (self.width as u32, self.height as u32, 1),
            format: PixelFormat::of_gltf(self.format).0,
            tiling: TILING_OPTIMAL,
            location: MemoryLocation::GpuOnly,
            usage: USAGE_SAMPLED,
            name: "gltf image",
        }
    }
}

/// The image to make for one of glTF.
pub fn to_vk_image(image: GltfImage) -> (upload: ImageUpload)
    ensures
        upload.desc == image.desc(),
        upload.raw_data == image.raw_data,
{
    let format = PixelFormat::from_gltf(image.format);
    ImageUpload {
        desc: ImageDesc {
            extent: (#[verifier::truncate] (image.width as u32), #[verifier::truncate] (
            image.height as u32), 1),
            format: format.0,
            tiling: TILING_OPTIMAL,
            location: MemoryLocation::GpuOnly,
            usage: USAGE_SAMPLED,
            name: "gltf image",
        },
        raw_data: image.raw_data,
    }
}

// ---------------------------------------------------------------------------
// Transforms
// ---------------------------------------------------------------------------

/// The first three rows of a four by four matrix, row by row. The matrix is given
/// column by column.
pub open spec fn upper_rows(m: Seq<u32>) -> Seq<u32> {
    Seq::new(12, |i: int| m[(i % 4) * 4 + i / 4])
}

/// An affine transform as acceleration structures take it, from a matrix column by
/// column. The last row, which an affine transform does not use, is left out.
pub fn na_mat4_to_vk_transform(m: [u32; 16]) -> (rows: [u32; 12])
    ensures
        rows@ == upper_rows(m@),
{
    let rows = [
        m[0],
        m[4],
        m[8],
        m[12],
        m[1],
        m[5],
        m[9],
        m[13],
        m[2],
        m[6],
        m[10],
        m[14],
    ];
    assert(rows@ =~= upper_rows(m@));
    rows
}

// ---------------------------------------------------------------------------
// Emissive triangles
// ---------------------------------------------------------------------------

/// A triangle that emits light, in its mesh's own space.
#[derive(Clone, Copy, Debug)]
pub struct EmissiveTriangle {
    pub v0: [u32; 4],
    pub v1: [u32; 4],
    pub v2: [u32; 4],
    pub emission: [u32; 4],
}

/// Three numbers and a zero: the zero of floating point has no bit set.
pub open spec fn padded(v: Seq<u32>) -> Seq<u32> {
    v.push(0)
}

fn pad(v: [u32; 3]) -> (r: [u32; 4])
    ensures
        r@ == padded(v@),
{
    let r = [v[0], v[1], v[2], 0];
    assert(r@ =~= padded(v@));
    r
}

impl EmissiveTriangle {
    /// Whether this is the triangle with the corners `a`, `b` and `c` and this emission.
    pub open spec fn is(
        self,
        a: [u32; 3],
        b: [u32; 3],
        c: [u32; 3],
        emission: [u32; 3],
    ) -> bool {
        &&& self.v0@ == padded(a@)
        &&& self.v1@ == padded(b@)
        &&& self.v2@ == padded(c@)
        &&& self.emission@ == padded(emission@)
    }

    /// The triangle with the corners `a`, `b` and `c`.
    pub fn new(a: [u32; 3], b: [u32; 3], c: [u32; 3], emission: [u32; 3]) -> (r: Self)
        ensures
            r.is(a, b, c, emission),
    {
        EmissiveTriangle { v0: pad(a), v1: pad(b), v2: pad(c), emission: pad(emission) }
    }
}

// ---------------------------------------------------------------------------
// Scenes
// ---------------------------------------------------------------------------

/// A primitive of a mesh. Two primitives with one key are the same geometry.
#[derive(Debug)]
pub struct Primitive {
    pub unique_key: u64,
    /// The material, by its token.
    pub material: u64,
    /// Whether the material cuts holes by its alpha.
    pub alpha_cutout: bool,
    /// What the material emits.
    pub emission: [u32; 3],
    /// The corners of the triangles that emit light.
    pub local_emissive_triangles: Vec<[[u32; 3]; 3]>,
}

/// A node of a scene: a mesh in its place, and what hangs below.
#[derive(Debug)]
pub struct Node {
    pub mesh: Option<Vec<Primitive>>,
    pub children: Option<Vec<Node>>,
    /// The place in the world, as a matrix column by column.
    pub transform: [u32; 16],
}

/// A primitive's geometry on the device, by tokens.
#[derive(Clone, Copy, Debug, PartialEq, Eq, Structural)]
pub struct PrimitiveData {
    pub vertex_buffer: u64,
    pub index_buffer: u64,
}

/// What the nodes of a scene refer to.
#[derive(Debug)]
pub struct SceneData {
    /// The textures, by tokens.
    pub textures: Vec<u64>,
    pub samplers: Vec<GltfSampler>,
    pub images: Vec<GltfImage>,
    pub primitive_data_map: HashMap<u64, PrimitiveData>,
}

/// One acceleration structure to build, with what is uploaded along with it.
#[derive(Debug)]
pub struct LoadedBlas {
    pub geometry: PrimitiveData,
    /// Whether no ray has to ask for the alpha of what it hits.
    pub opaque: bool,
    /// The material, by its token.
    pub material: u64,
    pub emissive_triangles: Vec<EmissiveTriangle>,
}

/// What a scene comes to: the acceleration structures, each once, and the instances.
#[derive(Debug)]
pub struct LoadedScene {
    pub blases: Vec<LoadedBlas>,
    /// For each instance its acceleration structure, by index, and its place.
    pub instances: Vec<(usize, [u32; 12])>,
    pub textures: Vec<u64>,
    pub sampler_descs: Vec<SamplerDesc>,
    pub images: Vec<ImageUpload>,
}

/// A scene: the nodes that hang below nothing.
#[derive(Debug)]
pub struct Scene {
    pub nodes: Vec<Node>,
}

/// A primitive in its place.
pub ghost struct Placed {
    pub primitive: Primitive,
    pub transform: [u32; 16],
}

/// The primitives of a node's own mesh, in order.
pub open spec fn own_primitives(node: Node) -> Seq<Placed> {
    match node.mesh {
        Some(mesh) => Seq::new(
            mesh@.len(),
            |i: int| Placed { primitive: mesh@[i], transform: node.transform },
        ),
        None => Seq::empty(),
    }
}

/// The primitives of a node and of everything below it: a node before its children.
pub open spec fn primitives_of(node: Node) -> Seq<Placed>
    decreases node, 0nat,
{
    own_primitives(node) + match node.children {
        Some(children) => primitives_of_first(children@, children@.len()),
        None => Seq::empty(),
    }
}

/// The primitives of the first `n` nodes and of everything below them.
pub open spec fn primitives_of_first(nodes: Seq<Node>, n: nat) -> Seq<Placed>
    decreases nodes, n,
{
    if 0 < n <= nodes.len() {
        primitives_of_first(nodes, (n - 1) as nat) + primitives_of(nodes[n - 1])
    } else {
        Seq::empty()
    }
}

/// Whether a list of primitives holds one with this key.
pub open spec fn holds_key(list: Seq<Primitive>, key: u64) -> bool {
    exists|i: int| 0 <= i < list.len() && (#[trigger] list[i]).unique_key == key
}

/// The first of each kind of geometry among the first `n` primitives, in order.
pub open spec fn unique_primitives(placed: Seq<Placed>, n: nat) -> Seq<Primitive>
    decreases n,
{
    if 0 < n <= placed.len() {
        let before = unique_primitives(placed, (n - 1) as nat);
        let primitive = placed[n - 1].primitive;
        if holds_key(before, primitive.unique_key) {
            before
        } else {
            before.push(primitive)
        }
    } else {
        Seq::empty()
    }
}

/// Whether `blas` is what is built for `primitive`.
pub open spec fn built_for(blas: LoadedBlas, primitive: Primitive, data: Map<u64, PrimitiveData>) -> bool {
    let triangles = primitive.local_emissive_triangles@;
    &&& blas.geometry == data[primitive.unique_key]
    &&& blas.opaque == !primitive.alpha_cutout
    &&& blas.material == primitive.material
    &&& blas.emissive_triangles@.len() == triangles.len()
    &&& forall|i: int|
        0 <= i < triangles.len() ==> (#[trigger] blas.emissive_triangles@[i]).is(
            triangles[i][0],
            triangles[i][1],
            triangles[i][2],
            primitive.emission,
        )
}

/// Whether these structures and instances are what the primitives in their places come
/// to: a structure for each geometry, in the order of first sight, and an instance for
/// each place.
pub open spec fn laid_out(
    blases: Seq<LoadedBlas>,
    instances: Seq<(usize, [u32; 12])>,
    placed: Seq<Placed>,
    data: Map<u64, PrimitiveData>,
) -> bool {
    let unique = unique_primitives(placed, placed.len());
    &&& blases.len() == unique.len()
    &&& forall|i: int|
        0 <= i < blases.len() ==> #[trigger] built_for(blases[i], unique[i], data)
    &&& instances.len() == placed.len()
    &&& forall|i: int|
        0 <= i < instances.len() ==> #[trigger] instance_of(instances[i], placed[i], unique)
}

/// Whether an instance puts a primitive's structure in the primitive's place.
pub open spec fn instance_of(
    instance: (usize, [u32; 12]),
    placed: Placed,
    unique: Seq<Primitive>,
) -> bool {
    &&& instance.0 < unique.len()
    &&& unique[instance.0 as int].unique_key == placed.primitive.unique_key
    &&& instance.1@ == upper_rows(placed.transform@)
}

/// Whether the geometry of every primitive is there.
pub open spec fn geometry_given(placed: Seq<Placed>, data: Map<u64, PrimitiveData>) -> bool {
    forall|i: int|
        0 <= i < placed.len() ==> data.contains_key(
            (#[trigger] placed[i]).primitive.unique_key,
        )
}

/// No two of the unique primitives have one key, and every primitive's key is among
/// them: each geometry is built exactly once.
pub proof fn law_each_geometry_is_built_once(placed: Seq<Placed>)
    ensures
        forall|i: int, j: int|
            0 <= i < j < unique_primitives(placed, placed.len()).len() ==> (
            #[trigger] unique_primitives(placed, placed.len())[i]).unique_key != (
            #[trigger] unique_primitives(placed, placed.len())[j]).unique_key,
        forall|i: int|
            0 <= i < placed.len() ==> holds_key(
                unique_primitives(placed, placed.len()),
                (#[trigger] placed[i]).primitive.unique_key,
            ),
{
    lemma_unique(placed, placed.len());
}

proof fn lemma_unique(placed: Seq<Placed>, n: nat)
    requires
        n <= placed.len(),
    ensures
        forall|i: int, j: int|
            0 <= i < j < unique_primitives(placed, n).len() ==> (#[trigger] unique_primitives(
                placed,
                n,
            )[i]).unique_key != (#[trigger] unique_primitives(placed, n)[j]).unique_key,
        forall|i: int|
            0 <= i < n ==> holds_key(
                unique_primitives(placed, n),
                (#[trigger] placed[i]).primitive.unique_key,
            ),
    decreases n,
{
    if n > 0 {
        lemma_unique(placed, (n - 1) as nat);
        let before = unique_primitives(placed, (n - 1) as nat);
        let after = unique_primitives(placed, n);
        let key = placed[n - 1].primitive.unique_key;
        if !holds_key(before, key) {
            assert(after[after.len() - 1].unique_key == key);
        }
        assert forall|k: u64| holds_key(before, k) implies holds_key(after, k) by {
            let i = choose|i: int| 0 <= i < before.len() && (#[trigger] before[i]).unique_key == k;
            assert(after[i].unique_key == k);
        }
    }
}

/// Appending a primitive in its place.
proof fn lemma_unique_of_prefix(placed: Seq<Placed>, more: Seq<Placed>, n: nat)
    requires
        n <= placed.len(),
    ensures
        unique_primitives(placed + more, n) == unique_primitives(placed, n),
    decreases n,
{
    if n > 0 {
        lemma_unique_of_prefix(placed, more, (n - 1) as nat);
        assert((placed + more)[n - 1] == placed[n - 1]);
    }
}

/// Whether the index by key agrees with the structures so far.
spec fn indexed(index: Map<u64, usize>, unique: Seq<Primitive>) -> bool {
    &&& forall|k: u64| #[trigger] index.contains_key(k) <==> holds_key(unique, k)
    &&& forall|k: u64|
        index.contains_key(k) ==> (#[trigger] index[k]) < unique.len()
            && unique[index[k] as int].unique_key == k
}

/// Whether the geometry that was not used so far is still there.
spec fn unused(
    left: Map<u64, PrimitiveData>,
    data: Map<u64, PrimitiveData>,
    unique: Seq<Primitive>,
) -> bool {
    forall|k: u64|
        data.contains_key(k) && !holds_key(unique, k) ==> (#[trigger] left.contains_key(k))
            && left[k] == data[k]
}

fn emissive_triangles(primitive: &Primitive) -> (r: Vec<EmissiveTriangle>)
    ensures
        r@.len() == primitive.local_emissive_triangles@.len(),
        forall|i: int|
            0 <= i < r@.len() ==> (#[trigger] r@[i]).is(
                primitive.local_emissive_triangles@[i][0],
                primitive.local_emissive_triangles@[i][1],
                primitive.local_emissive_triangles@[i][2],
                primitive.emission,
            ),
{
    let mut r: Vec<EmissiveTriangle> = Vec::new();
    for i in 0..primitive.local_emissive_triangles.len()
        invariant
            r@.len() == i,
            forall|j: int|
                0 <= j < i ==> (#[trigger] r@[j]).is(
                    primitive.local_emissive_triangles@[j][0],
                    primitive.local_emissive_triangles@[j][1],
                    primitive.local_emissive_triangles@[j][2],
                    primitive.emission,
                ),
    {
        let triangle = primitive.local_emissive_triangles[i];
        r.push(EmissiveTriangle::new(triangle[0], triangle[1], triangle[2], primitive.emission));
    }
    r
}

impl Scene {
    /// A scene of these nodes.
    pub fn new(nodes: Vec<Node>) -> (r: SrResult<Self>)
        ensures
            r matches Ok(scene) && scene.nodes == nodes,
    {
        Ok(Scene { nodes })
    }

    /// The nodes that hang below nothing.
    pub fn nodes(&self) -> (nodes: &[Node])
        ensures
            nodes@ == self.nodes@,
    {
        self.nodes.as_slice()
    }

    /// The primitives of the scene in their places, depth first.
    pub open spec fn placed(self) -> Seq<Placed> {
        primitives_of_first(self.nodes@, self.nodes@.len())
    }

    /// Adds an instance of one primitive, and its acceleration structure where the
    /// geometry is new.
    fn place_primitive(
        primitive: &Primitive,
        transform: [u32; 16],
        blases: &mut Vec<LoadedBlas>,
        instances: &mut Vec<(usize, [u32; 12])>,
        primitives_blas_index: &mut HashMap<u64, usize>,
        primitive_data_map: &mut HashMap<u64, PrimitiveData>,
        Ghost(done): Ghost<Seq<Placed>>,
        Ghost(data): Ghost<Map<u64, PrimitiveData>>,
    )
        requires
            laid_out(old(blases)@, old(instances)@, done, data),
            indexed(old(primitives_blas_index)@, unique_primitives(done, done.len())),
            unused(old(primitive_data_map)@, data, unique_primitives(done, done.len())),
            data.contains_key(primitive.unique_key),
        ensures
            laid_out(
                final(blases)@,
                final(instances)@,
                done.push(Placed { primitive: *primitive, transform }),
                data,
            ),
            indexed(
                final(primitives_blas_index)@,
                unique_primitives(
                    done.push(Placed { primitive: *primitive, transform }),
                    done.len() + 1,
                ),
            ),
            unused(
                final(primitive_data_map)@,
                data,
                unique_primitives(
                    done.push(Placed { primitive: *primitive, transform }),
                    done.len() + 1,
                ),
            ),
    {
        let ghost placed = Placed { primitive: *primitive, transform };
        let ghost after = done.push(placed);
        let ghost before_unique = unique_primitives(done, done.len());
        let ghost after_unique = unique_primitives(after, after.len());
        proof {
            lemma_unique_of_prefix(done, seq![placed], done.len());
            assert(done + seq![placed] =~= after);
            assert(after[done.len() as int] == placed);
        }
        let key: u64 = primitive.unique_key;
        let known: Option<usize> = match primitives_blas_index.get(&key) {
            Some(index) => Some(*index),
            None => None,
        };
        let blas_index: usize = match known {
            Some(index) => {
                proof {
                    assert(primitives_blas_index@.contains_key(key));
                    assert(after_unique == before_unique);
                    assert(unused(primitive_data_map@, data, after_unique));
                }
                index
            },
            None => {
                proof {
                    assert(!primitives_blas_index@.contains_key(key));
                    assert(!holds_key(before_unique, key));
                    assert(after_unique == before_unique.push(*primitive));
                    assert(primitive_data_map@.contains_key(key));
                }
                let geometry = primitive_data_map.remove(&key).unwrap();
                let index: usize = blases.len();
                blases.push(
                    LoadedBlas {
                        geometry,
                        opaque: !primitive.alpha_cutout,
                        material: primitive.material,
                        emissive_triangles: emissive_triangles(primitive),
                    },
                );
                primitives_blas_index.insert(key, index);
                proof {
                    assert(built_for(blases@[index as int], *primitive, data));
                    assert forall|i: int| 0 <= i < blases@.len() implies #[trigger] built_for(
                        blases@[i],
                        after_unique[i],
                        data,
                    ) by {
                        if i < index {
                            assert(built_for(old(blases)@[i], before_unique[i], data));
                        }
                    }
                    assert forall|k: u64| holds_key(after_unique, k) <==> (k == key || holds_key(
                        before_unique,
                        k,
                    )) by {
                        lemma_holds_pushed(before_unique, *primitive, k);
                    }
                    lemma_unused_after(old(primitive_data_map)@, data, before_unique, *primitive);
                    assert(unused(primitive_data_map@, data, after_unique));
                }
                index
            },
        };
        instances.push((blas_index, na_mat4_to_vk_transform(transform)));
        proof {
            assert(after_unique[blas_index as int].unique_key == key);
            assert forall|i: int| 0 <= i < instances@.len() implies #[trigger] instance_of(
                instances@[i],
                after[i],
                after_unique,
            ) by {
                if i < done.len() {
                    assert(instance_of(old(instances)@[i], done[i], before_unique));
                }
            }
        }
    }

    /// Adds what hangs at a node: its own primitives, and then those of its children.
    fn explore_node(
        node: &Node,
        blases: &mut Vec<LoadedBlas>,
        instances: &mut Vec<(usize, [u32; 12])>,
        primitives_blas_index: &mut HashMap<u64, usize>,
        primitive_data_map: &mut HashMap<u64, PrimitiveData>,
        Ghost(done): Ghost<Seq<Placed>>,
        Ghost(data): Ghost<Map<u64, PrimitiveData>>,
    )
        requires
            laid_out(old(blases)@, old(instances)@, done, data),
            indexed(old(primitives_blas_index)@, unique_primitives(done, done.len())),
            unused(old(primitive_data_map)@, data, unique_primitives(done, done.len())),
            geometry_given(primitives_of(*node), data),
        ensures
            laid_out(final(blases)@, final(instances)@, done + primitives_of(*node), data),
            indexed(
                final(primitives_blas_index)@,
                unique_primitives(
                    done + primitives_of(*node),
                    (done + primitives_of(*node)).len(),
                ),
            ),
            unused(
                final(primitive_data_map)@,
                data,
                unique_primitives(
                    done + primitives_of(*node),
                    (done + primitives_of(*node)).len(),
                ),
            ),
        decreases node, 0nat,
    {
        let ghost own = own_primitives(*node);
        let ghost all = primitives_of(*node);
        proof {
            assert forall|i: int| 0 <= i < own.len() implies data.contains_key(
                (#[trigger] own[i]).primitive.unique_key,
            ) by {
                assert(all[i] == own[i]);
            }
        }
        if let Some(mesh) = &node.mesh {
            assert(done + own.take(0) =~= done);
            for i in 0..mesh.len()
                invariant
                    node.mesh == Some(*mesh),
                    own == own_primitives(*node),
                    own.len() == mesh@.len(),
                    geometry_given(own, data),
                    laid_out(blases@, instances@, done + own.take(i as int), data),
                    indexed(
                        primitives_blas_index@,
                        unique_primitives(
                            done + own.take(i as int),
                            (done + own.take(i as int)).len(),
                        ),
                    ),
                    unused(
                        primitive_data_map@,
                        data,
                        unique_primitives(
                            done + own.take(i as int),
                            (done + own.take(i as int)).len(),
                        ),
                    ),
            {
                proof {
                    assert(own[i as int].primitive == mesh@[i as int]);
                    assert((done + own.take(i as int)).push(
                        Placed { primitive: mesh@[i as int], transform: node.transform },
                    ) =~= done + own.take(i + 1));
                }
                Self::place_primitive(
                    &mesh[i],
                    node.transform,
                    blases,
                    instances,
                    primitives_blas_index,
                    primitive_data_map,
                    Ghost(done + own.take(i as int)),
                    Ghost(data),
                );
            }
            assert(own.take(own.len() as int) =~= own);
        } else {
            assert(done + own =~= done);
        }
        if let Some(children) = &node.children {
            proof {
                let below = primitives_of_first(children@, children@.len());
                assert(all == own + below);
                assert forall|i: int| 0 <= i < below.len() implies data.contains_key(
                    (#[trigger] below[i]).primitive.unique_key,
                ) by {
                    assert(all[own.len() + i] == below[i]);
                }
                assert(done + own + below =~= done + all);
            }
            Self::explore_nodes(
                children,
                blases,
                instances,
                primitives_blas_index,
                primitive_data_map,
                Ghost(done + own),
                Ghost(data),
            );
        } else {
            assert(done + own =~= done + all);
        }
    }

    /// Adds what hangs at each of these nodes, in order.
    fn explore_nodes(
        nodes: &Vec<Node>,
        blases: &mut Vec<LoadedBlas>,
        instances: &mut Vec<(usize, [u32; 12])>,
        primitives_blas_index: &mut HashMap<u64, usize>,
        primitive_data_map: &mut HashMap<u64, PrimitiveData>,
        Ghost(done): Ghost<Seq<Placed>>,
        Ghost(data): Ghost<Map<u64, PrimitiveData>>,
    )
        requires
            laid_out(old(blases)@, old(instances)@, done, data),
            indexed(old(primitives_blas_index)@, unique_primitives(done, done.len())),
            unused(old(primitive_data_map)@, data, unique_primitives(done, done.len())),
            geometry_given(primitives_of_first(nodes@, nodes@.len()), data),
        ensures
            laid_out(
                final(blases)@,
                final(instances)@,
                done + primitives_of_first(nodes@, nodes@.len()),
                data,
            ),
            indexed(
                final(primitives_blas_index)@,
                unique_primitives(
                    done + primitives_of_first(nodes@, nodes@.len()),
                    (done + primitives_of_first(nodes@, nodes@.len())).len(),
                ),
            ),
            unused(
                final(primitive_data_map)@,
                data,
                unique_primitives(
                    done + primitives_of_first(nodes@, nodes@.len()),
                    (done + primitives_of_first(nodes@, nodes@.len())).len(),
                ),
            ),
        decreases nodes, 1nat,
    {
        assert(done + primitives_of_first(nodes@, 0) =~= done);
        for i in 0..nodes.len()
            invariant
                geometry_given(primitives_of_first(nodes@, nodes@.len()), data),
                laid_out(
                    blases@,
                    instances@,
                    done + primitives_of_first(nodes@, i as nat),
                    data,
                ),
                indexed(
                    primitives_blas_index@,
                    unique_primitives(
                        done + primitives_of_first(nodes@, i as nat),
                        (done + primitives_of_first(nodes@, i as nat)).len(),
                    ),
                ),
                unused(
                    primitive_data_map@,
                    data,
                    unique_primitives(
                        done + primitives_of_first(nodes@, i as nat),
                        (done + primitives_of_first(nodes@, i as nat)).len(),
                    ),
                ),
        {
            let ghost here = done + primitives_of_first(nodes@, i as nat);
            proof {
                let all = primitives_of_first(nodes@, nodes@.len());
                let this = primitives_of(nodes@[i as int]);
                lemma_first_within(nodes@, (i + 1) as nat);
                assert forall|j: int| 0 <= j < this.len() implies data.contains_key(
                    (#[trigger] this[j]).primitive.unique_key,
                ) by {
                    let at = primitives_of_first(nodes@, i as nat).len() + j;
                    assert(all[at] == this[j]);
                }
                assert(here + this =~= done + primitives_of_first(nodes@, (i + 1) as nat));
                assert(decreases_to!(nodes => nodes@[i as int]));
            }
            Self::explore_node(
                &nodes[i],
                blases,
                instances,
                primitives_blas_index,
                primitive_data_map,
                Ghost(here),
                Ghost(data),
            );
        }
    }

    /// What the scene comes to: a structure for each geometry, an instance for each
    /// place, and the samplers and images in Vulkan's terms.
    pub fn load_into_gpu(&self, scene_data: SceneData) -> (loaded: LoadedScene)
        requires
            geometry_given(self.placed(), scene_data.primitive_data_map@),
        ensures
            laid_out(
                loaded.blases@,
                loaded.instances@,
                self.placed(),
                scene_data.primitive_data_map@,
            ),
            loaded.textures == scene_data.textures,
            loaded.sampler_descs@ == scene_data.samplers@.map_values(
                |sampler: GltfSampler| sampler.desc(),
            ),
            loaded.images@.len() == scene_data.images@.len(),
            forall|i: int|
                0 <= i < loaded.images@.len() ==> (#[trigger] loaded.images@[i]).desc
                    == scene_data.images@[i].desc() && loaded.images@[i].raw_data
                    == scene_data.images@[i].raw_data,
    {
        let SceneData { textures, samplers, images, primitive_data_map } = scene_data;
        let mut primitive_data_map = primitive_data_map;
        let mut blases: Vec<LoadedBlas> = Vec::new();
        let mut instances: Vec<(usize, [u32; 12])> = Vec::new();
        let mut primitives_blas_index: HashMap<u64, usize> = HashMap::new();
        let ghost none = Seq::<Placed>::empty();
        let ghost data = primitive_data_map@;
        assert(none + self.placed() =~= self.placed());
        Self::explore_nodes(
            &self.nodes,
            &mut blases,
            &mut instances,
            &mut primitives_blas_index,
            &mut primitive_data_map,
            Ghost(none),
            Ghost(data),
        );
        let mut sampler_descs: Vec<SamplerDesc> = Vec::new();
        for i in 0..samplers.len()
            invariant
                sampler_descs@.len() == i,
                forall|j: int| 0 <= j < i ==> sampler_descs@[j] == (#[trigger] samplers@[j]).desc(),
        {
            sampler_descs.push(samplers[i].sampler_desc());
        }
        assert(sampler_descs@ =~= samplers@.map_values(|sampler: GltfSampler| sampler.desc()));
        let mut images = images;
        let ghost given = images@;
        let mut backwards: Vec<ImageUpload> = Vec::new();
        while images.len() > 0
            invariant
                images@.len() + backwards@.len() == given.len(),
                images@ == given.take(images@.len() as int),
                forall|j: int|
                    0 <= j < backwards@.len() ==> (#[trigger] backwards@[j]).desc == given[given.len()
                        - 1 - j].desc() && backwards@[j].raw_data == given[given.len() - 1
                        - j].raw_data,
            decreases images@.len(),
        {
            let image = images.pop().unwrap();
            backwards.push(to_vk_image(image));
        }
        let mut uploads: Vec<ImageUpload> = Vec::new();
        let ghost turned = backwards@;
        while backwards.len() > 0
            invariant
                uploads@.len() + backwards@.len() == given.len(),
                given.len() == turned.len(),
                backwards@ == turned.take(backwards@.len() as int),
                forall|j: int|
                    0 <= j < turned.len() ==> (#[trigger] turned[j]).desc == given[given.len() - 1
                        - j].desc() && turned[j].raw_data == given[given.len() - 1 - j].raw_data,
                forall|j: int|
                    0 <= j < uploads@.len() ==> (#[trigger] uploads@[j]).desc == given[j].desc()
                        && uploads@[j].raw_data == given[j].raw_data,
            decreases backwards@.len(),
        {
            let upload = backwards.pop().unwrap();
            assert(upload == turned[backwards@.len() as int]);
            uploads.push(upload);
        }
        LoadedScene { blases, instances, textures, sampler_descs, images: uploads }
    }
}

proof fn lemma_unused_after(
    left: Map<u64, PrimitiveData>,
    data: Map<u64, PrimitiveData>,
    list: Seq<Primitive>,
    primitive: Primitive,
)
    requires
        unused(left, data, list),
    ensures
        unused(left.remove(primitive.unique_key), data, list.push(primitive)),
{
    let after = left.remove(primitive.unique_key);
    assert forall|k: u64|
        data.contains_key(k) && !holds_key(list.push(primitive), k) implies (
    #[trigger] after.contains_key(k)) && after[k] == data[k] by {
        lemma_holds_pushed(list, primitive, k);
        assert(left.contains_key(k));
    }
}

proof fn lemma_holds_pushed(list: Seq<Primitive>, primitive: Primitive, key: u64)
    ensures
        holds_key(list.push(primitive), key) <==> (key == primitive.unique_key || holds_key(
            list,
            key,
        )),
{
    let longer = list.push(primitive);
    assert(longer[list.len() as int] == primitive);
    if holds_key(list, key) {
        let i = choose|i: int| 0 <= i < list.len() && (#[trigger] list[i]).unique_key == key;
        assert(longer[i].unique_key == key);
    }
    if holds_key(longer, key) {
        let i = choose|i: int| 0 <= i < longer.len() && (#[trigger] longer[i]).unique_key == key;
        if i < list.len() {
            assert(list[i].unique_key == key);
        }
    }
}

/// The primitives of the first nodes come first.
proof fn lemma_first_within(nodes: Seq<Node>, n: nat)
    requires
        n <= nodes.len(),
    ensures
        primitives_of_first(nodes, n).len() <= primitives_of_first(nodes, nodes.len()).len(),
        forall|i: int|
            0 <= i < primitives_of_first(nodes, n).len() ==> #[trigger] primitives_of_first(
                nodes,
                nodes.len(),
            )[i] == primitives_of_first(nodes, n)[i],
    decreases nodes.len() - n,
{
    if n < nodes.len() {
        lemma_first_within(nodes, n + 1);
    }
}

} // verus!
