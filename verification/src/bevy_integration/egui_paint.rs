//! The overlay: its geometry, its draws and its textures.
//!
//! Coordinates in floating point are carried by their bits.
use std::collections::HashMap;

use vstd::prelude::*;

use crate::error::{SrError, SrResult};
use crate::render_graph::alias::MemoryLocation;
use crate::render_graph::resource::{BufferDesc, ImageDesc};
use crate::render_graph::submission::{SemaphoreOp, STAGE_ALL_COMMANDS};

verus! {

broadcast use vstd::std_specs::hash::group_hash_axioms;

// ---------------------------------------------------------------------------
// Geometry
// ---------------------------------------------------------------------------

/// A corner of a triangle of the overlay.
#[derive(Clone, Copy, Debug)]
pub struct GpuVertex {
    pub pos: [u32; 2],
    pub uv: [u32; 2],
    pub color: [u8; 4],
}

/// How many bytes a corner takes.
pub const VERTEX_BYTES: u64 = 20;

/// A rectangle of pixels.
#[derive(Clone, Copy, Debug, PartialEq, Eq, Structural)]
pub struct Scissor {
    pub x: u32,
    pub y: u32,
    pub width: u32,
    pub height: u32,
}

/// The corners of a clip rectangle in pixels: the first rounded down, the second up.
#[derive(Clone, Copy, Debug, PartialEq, Eq, Structural)]
pub struct PixelClip {
    pub min_x: u32,
    pub min_y: u32,
    pub max_x: u32,
    pub max_y: u32,
}

/// A piece of the overlay: some triangles with one texture, within a clip rectangle.
#[derive(Debug)]
pub struct UiMesh {
    pub clip: PixelClip,
    /// The texture, by its token.
    pub texture: u64,
    pub vertices: Vec<GpuVertex>,
    pub indices: Vec<u32>,
}

/// A piece of the overlay as it comes in: triangles, or a callback, which is not
/// supported.
#[derive(Debug)]
pub enum UiPrimitive {
    Mesh(UiMesh),
    Callback,
}

/// One draw: its clip rectangle and texture, and where its triangles stand in the
/// frame's buffers.
#[derive(Clone, Copy, Debug, PartialEq, Eq, Structural)]
pub struct DrawCmd {
    pub clip: PixelClip,
    pub texture: u64,
    pub idx_start: u32,
    pub idx_count: u32,
    pub vtx_offset: i32,
}

/// The geometry of a frame in one piece, and its draws.
#[derive(Debug)]
pub struct UiGeometry {
    pub vertices: Vec<GpuVertex>,
    pub indices: Vec<u32>,
    pub draws: Vec<DrawCmd>,
}

/// Whether a primitive is drawn: it has triangles.
pub open spec fn drawn(primitive: UiPrimitive) -> bool {
    primitive matches UiPrimitive::Mesh(mesh) && mesh.indices@.len() > 0
}

/// The corners of the first `n` primitives that are drawn, one behind the other.
pub open spec fn all_vertices(primitives: Seq<UiPrimitive>, n: nat) -> Seq<GpuVertex>
    decreases n,
{
    if 0 < n <= primitives.len() {
        let before = all_vertices(primitives, (n - 1) as nat);
        if drawn(primitives[n - 1]) {
            before + primitives[n - 1]->Mesh_0.vertices@
        } else {
            before
        }
    } else {
        Seq::empty()
    }
}

/// The indices of the first `n` primitives that are drawn, one behind the other.
pub open spec fn all_indices(primitives: Seq<UiPrimitive>, n: nat) -> Seq<u32>
    decreases n,
{
    if 0 < n <= primitives.len() {
        let before = all_indices(primitives, (n - 1) as nat);
        if drawn(primitives[n - 1]) {
            before + primitives[n - 1]->Mesh_0.indices@
        } else {
            before
        }
    } else {
        Seq::empty()
    }
}

/// The draws of the first `n` primitives. Each starts where those before it end.
pub open spec fn all_draws(primitives: Seq<UiPrimitive>, n: nat) -> Seq<DrawCmd>
    decreases n,
{
    if 0 < n <= primitives.len() {
        let before = all_draws(primitives, (n - 1) as nat);
        if drawn(primitives[n - 1]) {
            let mesh = primitives[n - 1]->Mesh_0;
            before.push(
                DrawCmd {
                    clip: mesh.clip,
                    texture: mesh.texture,
                    idx_start: all_indices(primitives, (n - 1) as nat).len() as u32,
                    idx_count: mesh.indices@.len() as u32,
                    vtx_offset: all_vertices(primitives, (n - 1) as nat).len() as i32,
                },
            )
        } else {
            before
        }
    } else {
        Seq::empty()
    }
}

/// Whether the geometry of a frame can be numbered in 32 bits.
pub open spec fn geometry_fits(primitives: Seq<UiPrimitive>) -> bool {
    &&& all_vertices(primitives, primitives.len()).len() <= i32::MAX
    &&& all_indices(primitives, primitives.len()).len() <= u32::MAX
}

proof fn lemma_geometry_grows(primitives: Seq<UiPrimitive>, n: nat)
    requires
        n <= primitives.len(),
    ensures
        all_vertices(primitives, n).len() <= all_vertices(primitives, primitives.len()).len(),
        all_indices(primitives, n).len() <= all_indices(primitives, primitives.len()).len(),
    decreases primitives.len() - n,
{
    if n < primitives.len() {
        lemma_geometry_grows(primitives, n + 1);
    }
}

/// Puts the geometry of a frame in one piece, and lists its draws.
pub fn gather_geometry(primitives: &Vec<UiPrimitive>) -> (geometry: UiGeometry)
    requires
        geometry_fits(primitives@),
    ensures
        geometry.vertices@ == all_vertices(primitives@, primitives@.len()),
        geometry.indices@ == all_indices(primitives@, primitives@.len()),
        geometry.draws@ == all_draws(primitives@, primitives@.len()),
{
    let mut vertices: Vec<GpuVertex> = Vec::new();
    let mut indices: Vec<u32> = Vec::new();
    let mut draws: Vec<DrawCmd> = Vec::new();
    for i in 0..primitives.len()
        invariant
            geometry_fits(primitives@),
            vertices@ == all_vertices(primitives@, i as nat),
            indices@ == all_indices(primitives@, i as nat),
            draws@ == all_draws(primitives@, i as nat),
    {
        proof {
            lemma_geometry_grows(primitives@, i as nat);
            lemma_geometry_grows(primitives@, (i + 1) as nat);
        }
        if let UiPrimitive::Mesh(mesh) = &primitives[i] {
            if mesh.indices.len() > 0 {
                let vtx_offset: i32 = vertices.len() as i32;
                let idx_start: u32 = indices.len() as u32;
                let ghost before = vertices@;
                let ghost listed = indices@;
                for j in 0..mesh.vertices.len()
                    invariant
                        vertices@ == before + mesh.vertices@.take(j as int),
                {
                    vertices.push(mesh.vertices[j]);
                    assert(vertices@ =~= before + mesh.vertices@.take(j + 1));
                }
                for j in 0..mesh.indices.len()
                    invariant
                        indices@ == listed + mesh.indices@.take(j as int),
                {
                    indices.push(mesh.indices[j]);
                    assert(indices@ =~= listed + mesh.indices@.take(j + 1));
                }
                proof {
                    assert(mesh.vertices@.take(mesh.vertices@.len() as int) =~= mesh.vertices@);
                    assert(mesh.indices@.take(mesh.indices@.len() as int) =~= mesh.indices@);
                    assert(drawn(primitives@[i as int]));
                }
                draws.push(
                    DrawCmd {
                        clip: mesh.clip,
                        texture: mesh.texture,
                        idx_start,
                        idx_count: mesh.indices.len() as u32,
                        vtx_offset,
                    },
                );
            }
        }
    }
    UiGeometry { vertices, indices, draws }
}

/// Every draw reads the triangles of its own primitive: its stretch of the indices is
/// that primitive's, and the corners from its offset on are that primitive's.
pub proof fn law_draws_read_their_own_triangles(primitives: Seq<UiPrimitive>, d: int)
    requires
        geometry_fits(primitives),
        0 <= d < all_draws(primitives, primitives.len()).len(),
    ensures
        exists|p: int| #[trigger] reads_primitive(primitives, primitives.len(), d, p),
{
    lemma_draw_reads(primitives, primitives.len(), d);
}

/// Whether a draw of the first `n` primitives reads the triangles of primitive `p`.
pub open spec fn reads_primitive(
    primitives: Seq<UiPrimitive>,
    n: nat,
    d: int,
    p: int,
) -> bool {
    let draw = all_draws(primitives, n)[d];
    let mesh = primitives[p]->Mesh_0;
    let vertices = all_vertices(primitives, n);
    let indices = all_indices(primitives, n);
    &&& 0 <= p < n
    &&& drawn(primitives[p])
    &&& draw.texture == mesh.texture
    &&& draw.clip == mesh.clip
    &&& draw.idx_count == mesh.indices@.len()
    &&& draw.idx_start + draw.idx_count <= indices.len()
    &&& indices.subrange(draw.idx_start as int, draw.idx_start + draw.idx_count)
        == mesh.indices@
    &&& 0 <= draw.vtx_offset
    &&& draw.vtx_offset + mesh.vertices@.len() <= vertices.len()
    &&& vertices.subrange(draw.vtx_offset as int, draw.vtx_offset + mesh.vertices@.len())
        == mesh.vertices@
}

proof fn lemma_draw_reads(primitives: Seq<UiPrimitive>, n: nat, d: int)
    requires
        geometry_fits(primitives),
        n <= primitives.len(),
        0 <= d < all_draws(primitives, n).len(),
    ensures
        exists|p: int| #[trigger] reads_primitive(primitives, n, d, p),
    decreases n,
{
    let m = (n - 1) as nat;
    lemma_geometry_grows(primitives, n);
    lemma_geometry_grows(primitives, m);
    let before = all_draws(primitives, m);
    if drawn(primitives[n - 1]) && d == before.len() {
        let mesh = primitives[n - 1]->Mesh_0;
        let start = all_indices(primitives, m).len() as int;
        let offset = all_vertices(primitives, m).len() as int;
        assert(all_indices(primitives, n).subrange(start, start + mesh.indices@.len())
            =~= mesh.indices@);
        assert(all_vertices(primitives, n).subrange(offset, offset + mesh.vertices@.len())
            =~= mesh.vertices@);
        assert(reads_primitive(primitives, n, d, n - 1));
    } else {
        lemma_draw_reads(primitives, m, d);
        let p = choose|p: int| #[trigger] reads_primitive(primitives, m, d, p);
        let draw = before[d];
        let mesh = primitives[p]->Mesh_0;
        assert(all_draws(primitives, n)[d] == draw);
        assert(all_indices(primitives, n).subrange(
            draw.idx_start as int,
            draw.idx_start + draw.idx_count,
        ) =~= all_indices(primitives, m).subrange(
            draw.idx_start as int,
            draw.idx_start + draw.idx_count,
        ));
        assert(all_vertices(primitives, n).subrange(
            draw.vtx_offset as int,
            draw.vtx_offset + mesh.vertices@.len(),
        ) =~= all_vertices(primitives, m).subrange(
            draw.vtx_offset as int,
            draw.vtx_offset + mesh.vertices@.len(),
        ));
        assert(reads_primitive(primitives, n, d, p));
    }
}

// ---------------------------------------------------------------------------
// Clipping
// ---------------------------------------------------------------------------

/// The smaller of two numbers.
pub open spec fn smaller(a: u32, b: u32) -> u32 {
    if a < b {
        a
    } else {
        b
    }
}

/// A clip rectangle cut to an image. What lies wholly outside comes out empty.
pub open spec fn clipped(clip: PixelClip, extent: (u32, u32)) -> Scissor {
    let min_x = smaller(clip.min_x, extent.0);
    let min_y = smaller(clip.min_y, extent.1);
    let max_x = smaller(clip.max_x, extent.0);
    let max_y = smaller(clip.max_y, extent.1);
    Scissor {
        x: min_x,
        y: min_y,
        width: if max_x > min_x {
            (max_x - min_x) as u32
        } else {
            0
        },
        height: if max_y > min_y {
            (max_y - min_y) as u32
        } else {
            0
        },
    }
}

/// Cuts a clip rectangle to an image.
pub fn clip_to_scissor(clip: PixelClip, extent: (u32, u32)) -> (scissor: Scissor)
    ensures
        scissor == clipped(clip, extent),
{
    let min_x: u32 = if clip.min_x < extent.0 {
        clip.min_x
    } else {
        extent.0
    };
    let min_y: u32 = if clip.min_y < extent.1 {
        clip.min_y
    } else {
        extent.1
    };
    let max_x: u32 = if clip.max_x < extent.0 {
        clip.max_x
    } else {
        extent.0
    };
    let max_y: u32 = if clip.max_y < extent.1 {
        clip.max_y
    } else {
        extent.1
    };
    Scissor {
        x: min_x,
        y: min_y,
        width: max_x.saturating_sub(min_x),
        height: max_y.saturating_sub(min_y),
    }
}

/// A scissor lies within the image.
pub proof fn law_scissors_lie_within(clip: PixelClip, extent: (u32, u32))
    ensures
        ({
            let s = clipped(clip, extent);
            s.x + s.width <= extent.0 && s.y + s.height <= extent.1
        }),
{
}

// ---------------------------------------------------------------------------
// Buffers
// ---------------------------------------------------------------------------

/// The least that a buffer is made for.
pub const LEAST_CAPACITY: u64 = 4096;

/// How large a buffer is made that has to hold `needed` bytes: twice that, so that it is
/// not made anew every few frames.
pub open spec fn capacity_for(needed: u64) -> u64 {
    if needed * 2 > LEAST_CAPACITY {
        (needed * 2) as u64
    } else {
        LEAST_CAPACITY
    }
}

/// The buffer to make in place of the present one, if that is too small or there is none.
/// The host writes it.
pub fn ensure_buffer(
    current: Option<u64>,
    needed: u64,
    usage: u32,
    name: &'static str,
) -> (make: Option<BufferDesc>)
    requires
        needed * 2 <= u64::MAX,
    ensures
        match make {
            Some(desc) => {
                &&& !(current matches Some(size) && size >= needed)
                &&& desc == (BufferDesc {
                    byte_size: capacity_for(needed),
                    alignment: 16,
                    memory_location: MemoryLocation::CpuToGpu,
                    usage,
                    name,
                })
            },
            None => current matches Some(size) && size >= needed,
        },
{
    let big_enough = match current {
        Some(size) => size >= needed,
        None => false,
    };
    if big_enough {
        return None;
    }
    let doubled: u64 = needed * 2;
    let byte_size: u64 = if doubled > LEAST_CAPACITY {
        doubled
    } else {
        LEAST_CAPACITY
    };
    Some(
        BufferDesc {
            byte_size,
            alignment: 16,
            memory_location: MemoryLocation::CpuToGpu,
            usage,
            name,
        },
    )
}

/// A buffer that was made holds what it was made for, so it is not made again for that.
pub proof fn law_a_buffer_that_was_made_is_kept(needed: u64)
    requires
        needed * 2 <= u64::MAX,
    ensures
        capacity_for(needed) >= needed,
{
}

// ---------------------------------------------------------------------------
// Textures
// ---------------------------------------------------------------------------

/// Pixels as bytes: red, green, blue and alpha of one after the other.
pub open spec fn flattened(pixels: Seq<[u8; 4]>) -> Seq<u8> {
    Seq::new(4 * pixels.len(), |k: int| pixels[k / 4][k % 4])
}

/// Pixels as bytes.
pub fn image_data_to_rgba(pixels: &Vec<[u8; 4]>) -> (rgba: Vec<u8>)
    ensures
        rgba@ == flattened(pixels@),
{
    let mut rgba: Vec<u8> = Vec::new();
    for i in 0..pixels.len()
        invariant
            rgba@ == flattened(pixels@.take(i as int)),
    {
        let pixel = pixels[i];
        rgba.push(pixel[0]);
        rgba.push(pixel[1]);
        rgba.push(pixel[2]);
        rgba.push(pixel[3]);
        proof {
            let more = flattened(pixels@.take(i + 1));
            let before = flattened(pixels@.take(i as int));
            assert forall|k: int| 0 <= k < more.len() implies rgba@[k] == more[k] by {
                if k < 4 * i {
                    assert(rgba@[k] == before[k]);
                }
            }
            assert(rgba@ =~= more);
        }
    }
    assert(pixels@.take(pixels@.len() as int) =~= pixels@);
    rgba
}

/// A texture of the overlay. Its bytes are kept, so that parts of it can be replaced.
#[derive(Debug)]
pub struct EguiTexture {
    pub backing: Vec<u8>,
    pub width: usize,
    pub height: usize,
}

/// A change of a texture: all of it, or the part at a place.
#[derive(Debug)]
pub struct ImageDelta {
    pub rgba: Vec<u8>,
    pub width: usize,
    pub height: usize,
    pub pos: Option<(usize, usize)>,
}

/// The changes of a frame's textures.
#[derive(Debug)]
pub struct TexturesDelta {
    pub set: Vec<(u64, ImageDelta)>,
    pub free: Vec<u64>,
}

/// A texture as a value.
#[verifier::ext_equal]
pub ghost struct TextureState {
    pub backing: Seq<u8>,
    pub width: int,
    pub height: int,
}

impl EguiTexture {
    pub open spec fn view(&self) -> TextureState {
        TextureState {
            backing: self.backing@,
            width: self.width as int,
            height: self.height as int,
        }
    }
}

/// Where a row of a part begins in the bytes of a texture.
pub open spec fn row_start(width: int, pos: (usize, usize), row: int) -> int {
    ((pos.1 + row) * width + pos.0) * 4
}

/// Some bytes with others put over them from a place on.
pub open spec fn overlaid(bytes: Seq<u8>, at: int, over: Seq<u8>) -> Seq<u8> {
    Seq::new(
        bytes.len(),
        |k: int|
            if at <= k < at + over.len() {
                over[k - at]
            } else {
                bytes[k]
            },
    )
}

/// The bytes of a texture after the first `rows` rows of a part were put in.
pub open spec fn patched(
    texture: TextureState,
    delta: ImageDelta,
    pos: (usize, usize),
    rows: nat,
) -> Seq<u8>
    decreases rows,
{
    if rows == 0 {
        texture.backing
    } else {
        let row = rows - 1;
        overlaid(
            patched(texture, delta, pos, (rows - 1) as nat),
            row_start(texture.width, pos, row),
            delta.rgba@.subrange(row * delta.width * 4, (row + 1) * delta.width * 4),
        )
    }
}

/// Whether a part can be put into a texture: every row of it is there, and there is room
/// for it.
pub open spec fn patch_fits(
    texture: TextureState,
    delta: ImageDelta,
    pos: (usize, usize),
) -> bool {
    &&& texture.backing.len() <= usize::MAX
    &&& delta.height * delta.width * 4 <= delta.rgba@.len()
    &&& forall|row: int|
        0 <= row < delta.height ==> #[trigger] row_start(texture.width, pos, row)
            + delta.width * 4 <= texture.backing.len()
}

/// The textures after one change.
pub open spec fn after_set(
    textures: Map<u64, TextureState>,
    id: u64,
    delta: ImageDelta,
) -> Map<u64, TextureState> {
    match delta.pos {
        Some(pos) => textures.insert(
            id,
            TextureState {
                backing: patched(textures[id], delta, pos, delta.height as nat),
                ..textures[id]
            },
        ),
        None => textures.insert(
            id,
            TextureState {
                backing: delta.rgba@,
                width: delta.width as int,
                height: delta.height as int,
            },
        ),
    }
}

/// Whether a change can be made: a part needs a texture to go into.
pub open spec fn set_applies(textures: Map<u64, TextureState>, id: u64, delta: ImageDelta) -> bool {
    delta.pos is Some ==> textures.contains_key(id)
}

/// The textures after the first `n` changes.
pub open spec fn after_sets(
    textures: Map<u64, TextureState>,
    set: Seq<(u64, ImageDelta)>,
    n: nat,
) -> Map<u64, TextureState>
    decreases n,
{
    if 0 < n <= set.len() {
        after_set(after_sets(textures, set, (n - 1) as nat), set[n - 1].0, set[n - 1].1)
    } else {
        textures
    }
}

/// The textures after the first `n` of some are freed.
pub open spec fn after_frees(
    textures: Map<u64, TextureState>,
    free: Seq<u64>,
    n: nat,
) -> Map<u64, TextureState>
    decreases n,
{
    if 0 < n <= free.len() {
        after_frees(textures, free, (n - 1) as nat).remove(free[n - 1])
    } else {
        textures
    }
}

/// Whether the change at a place can be made after those before it.
pub open spec fn applies_at(
    textures: Map<u64, TextureState>,
    set: Seq<(u64, ImageDelta)>,
    i: int,
) -> bool {
    set_applies(after_sets(textures, set, i as nat), set[i].0, set[i].1)
}

/// Whether every part that has a texture to go into fits there.
pub open spec fn parts_fit(
    textures: Map<u64, TextureState>,
    set: Seq<(u64, ImageDelta)>,
) -> bool {
    forall|i: int|
        0 <= i < set.len() && #[trigger] applies_at(textures, set, i) ==> (
        set[i].1.pos matches Some(pos) ==> patch_fits(
            after_sets(textures, set, i as nat)[set[i].0],
            set[i].1,
            pos,
        ))
}

/// The overlay's textures and buffers.
pub struct EguiPaint {
    pub textures: HashMap<u64, EguiTexture>,
    /// How many bytes the buffer of corners holds, if there is one.
    pub vtx: Option<u64>,
    /// How many bytes the buffer of indices holds, if there is one.
    pub idx: Option<u64>,
}

/// The textures as values.
pub open spec fn texture_states(textures: Map<u64, EguiTexture>) -> Map<u64, TextureState> {
    textures.map_values(|texture: EguiTexture| texture@)
}

/// Puts a part into a texture.
fn patch(texture: &mut EguiTexture, delta: &ImageDelta, pos: (usize, usize))
    requires
        patch_fits(old(texture)@, *delta, pos),
    ensures
        final(texture)@ == (TextureState {
            backing: patched(old(texture)@, *delta, pos, delta.height as nat),
            ..old(texture)@
        }),
{
    let ghost start = texture@;
    let (px, py) = pos;
    if delta.width == 0 {
        proof {
            lemma_patch_nothing(start, *delta, pos, delta.height as nat);
        }
        return;
    }
    let available: usize = delta.rgba.len();
    let length: usize = texture.backing.len();
    for row in 0..delta.height
        invariant
            available == delta.rgba@.len(),
            length == start.backing.len(),
            start == old(texture)@,
            patch_fits(start, *delta, pos),
            pos == (px, py),
            delta.width > 0,
            texture.width == start.width,
            texture.height == start.height,
            texture.backing@ == patched(start, *delta, pos, row as nat),
            texture.backing@.len() == start.backing.len(),
    {
        let ghost at = row_start(start.width, pos, row as int);
        let ghost before = texture.backing@;
        let ghost source = row * delta.width * 4;
        proof {
            assert(at + delta.width * 4 <= start.backing.len());
            let w = start.width;
            let y = py + row;
            let dw = delta.width as int;
            let dh = delta.height as int;
            assert(at == (y * w + px) * 4);
            assert(0 <= y * w) by (nonlinear_arith)
                requires
                    0 <= y,
                    0 <= w,
            ;
            assert(source + dw * 4 <= dh * dw * 4) by (nonlinear_arith)
                requires
                    0 <= row < dh,
                    0 < dw,
                    source == row * dw * 4,
            ;
            assert(0 <= row * dw) by (nonlinear_arith)
                requires
                    0 <= row,
                    0 < dw,
            ;
            if w > 0 {
                assert(y <= y * w) by (nonlinear_arith)
                    requires
                        0 <= y,
                        1 <= w,
                ;
            }
        }
        let dst_start: usize = texel_start(texture.width, px, py, row, length);
        assert(source + delta.width * 4 <= available);
        let src_start: usize = row * delta.width * 4;
        let count: usize = delta.width * 4;
        let ghost over = delta.rgba@.subrange(src_start as int, src_start + count);
        proof {
            let dw = delta.width as int;
            assert((row + 1) * dw * 4 == row * dw * 4 + dw * 4) by (nonlinear_arith);
            assert(over.len() == count);
            assert(overlaid(before, at, over.take(0)) =~= before);
        }
        for j in 0..count
            invariant
                start == old(texture)@,
                dst_start == at,
                available == delta.rgba@.len(),
                length == texture.backing@.len(),
                src_start + count <= available,
                dst_start + count <= length,
                over == delta.rgba@.subrange(src_start as int, src_start + count),
                over.len() == count,
                texture.width == start.width,
                texture.height == start.height,
                before.len() == texture.backing@.len(),
                texture.backing@ == overlaid(before, at, over.take(j as int)),
        {
            assert(over[j as int] == delta.rgba@[src_start + j]);
            texture.backing.set(dst_start + j, delta.rgba[src_start + j]);
            assert(texture.backing@ =~= overlaid(before, at, over.take(j + 1)));
        }
        proof {
            assert(over.take(count as int) =~= over);
        }
    }
}

/// Where a row of a part begins in the bytes of a texture of some length, which holds it.
fn texel_start(width: usize, px: usize, py: usize, row: usize, length: usize) -> (start: usize)
    requires
        row_start(width as int, (px, py), row as int) <= length,
    ensures
        start == row_start(width as int, (px, py), row as int),
{
    if width == 0 {
        proof {
            let y = py + row;
            assert(y * 0 == 0) by (nonlinear_arith);
        }
        return px * 4;
    }
    proof {
        let y = py + row;
        let w = width as int;
        assert(y <= y * w) by (nonlinear_arith)
            requires
                0 <= y,
                1 <= w,
        ;
    }
    ((py + row) * width + px) * 4
}

proof fn lemma_patch_nothing(
    texture: TextureState,
    delta: ImageDelta,
    pos: (usize, usize),
    rows: nat,
)
    requires
        delta.width == 0,
        rows <= delta.height,
    ensures
        patched(texture, delta, pos, rows) == texture.backing,
    decreases rows,
{
    if rows > 0 {
        lemma_patch_nothing(texture, delta, pos, (rows - 1) as nat);
        let row = rows - 1;
        assert(row * 0 * 4 == 0 && (row + 1) * 0 * 4 == 0) by (nonlinear_arith);
        assert(patched(texture, delta, pos, rows) =~= texture.backing);
    }
}

/// Where a byte of a pixel stands.
pub open spec fn byte_at(width: int, x: int, y: int, c: int) -> int {
    (y * width + x) * 4 + c
}

/// A part of a texture lands where it belongs: within it the pixels are the new ones, and
/// around it they stay.
pub proof fn law_parts_land_where_they_belong(
    texture: TextureState,
    delta: ImageDelta,
    pos: (usize, usize),
    x: int,
    y: int,
    c: int,
)
    requires
        texture.backing.len() == texture.width * texture.height * 4,
        delta.rgba@.len() == delta.width * delta.height * 4,
        pos.0 + delta.width <= texture.width,
        pos.1 + delta.height <= texture.height,
        0 <= x < texture.width,
        0 <= y < texture.height,
        0 <= c < 4,
    ensures
        ({
            let after = patched(texture, delta, pos, delta.height as nat);
            let inside = pos.0 <= x < pos.0 + delta.width && pos.1 <= y < pos.1 + delta.height;
            &&& after.len() == texture.backing.len()
            &&& after[byte_at(texture.width, x, y, c)] == if inside {
                delta.rgba@[byte_at(delta.width as int, x - pos.0, y - pos.1, c)]
            } else {
                texture.backing[byte_at(texture.width, x, y, c)]
            }
        }),
{
    lemma_rows_land(texture, delta, pos, x, y, c, delta.height as nat);
}

proof fn lemma_rows_land(
    texture: TextureState,
    delta: ImageDelta,
    pos: (usize, usize),
    x: int,
    y: int,
    c: int,
    rows: nat,
)
    requires
        texture.backing.len() == texture.width * texture.height * 4,
        delta.rgba@.len() == delta.width * delta.height * 4,
        pos.0 + delta.width <= texture.width,
        pos.1 + delta.height <= texture.height,
        0 <= x < texture.width,
        0 <= y < texture.height,
        0 <= c < 4,
        rows <= delta.height,
    ensures
        ({
            let after = patched(texture, delta, pos, rows);
            let inside = pos.0 <= x < pos.0 + delta.width && pos.1 <= y < pos.1 + rows;
            &&& after.len() == texture.backing.len()
            &&& after[byte_at(texture.width, x, y, c)] == if inside {
                delta.rgba@[byte_at(delta.width as int, x - pos.0, y - pos.1, c)]
            } else {
                texture.backing[byte_at(texture.width, x, y, c)]
            }
        }),
    decreases rows,
{
    let width = texture.width;
    let k = byte_at(width, x, y, c);
    assert(0 <= k < width * texture.height * 4) by {
        let height = texture.height;
        assert(0 <= y * width && y * width + width <= width * height) by (nonlinear_arith)
            requires
                0 <= y < height,
                0 <= width,
        ;
    }
    if rows > 0 {
        lemma_rows_land(texture, delta, pos, x, y, c, (rows - 1) as nat);
        let row = rows - 1;
        let at = row_start(width, pos, row);
        let w = delta.width as int;
        let h = delta.height as int;
        let px = pos.0 as int;
        let py = pos.1 as int;
        let over = delta.rgba@.subrange(row * w * 4, (row + 1) * w * 4);
        assert(0 <= row * w && row * w + w <= w * h) by (nonlinear_arith)
            requires
                0 <= row < h,
                0 <= w,
        ;
        assert((row + 1) * w == row * w + w) by (nonlinear_arith);
        assert(over.len() == w * 4);
        assert(k - at == ((y - (py + row)) * width + x - px) * 4 + c) by (nonlinear_arith)
            requires
                k == (y * width + x) * 4 + c,
                at == ((py + row) * width + px) * 4,
        ;
        if y == py + row {
            assert((y - (py + row)) * width == 0) by (nonlinear_arith)
                requires
                    y == py + row,
            ;
            if px <= x < px + w {
                assert(byte_at(w, x - px, y - py, c) == row * w * 4 + (k - at)) by {
                    assert((y - py) * w == row * w);
                }
            }
        } else if y > py + row {
            assert((y - (py + row)) * width >= width) by (nonlinear_arith)
                requires
                    y > py + row,
                    width >= 0,
            ;
        } else {
            assert((y - (py + row)) * width <= -width) by (nonlinear_arith)
                requires
                    y < py + row,
                    width >= 0,
            ;
        }
    }
}

/// What is said of a part that comes before its texture.
pub open spec fn part_without_texture() -> Seq<char> {
    "egui sub-region texture update before full set"@
}

/// Whether the changes up to a place can be made, and the one there cannot.
pub open spec fn fails_first(
    textures: Map<u64, TextureState>,
    set: Seq<(u64, ImageDelta)>,
    at: int,
) -> bool {
    &&& 0 <= at < set.len()
    &&& !applies_at(textures, set, at)
    &&& forall|i: int| 0 <= i < at ==> #[trigger] applies_at(textures, set, i)
}

/// The numbers of the textures that changes touch, in order.
pub open spec fn touched_textures(set: Seq<(u64, ImageDelta)>) -> Seq<u64> {
    set.map_values(|change: (u64, ImageDelta)| change.0)
}

impl EguiPaint {
    /// The textures as values.
    pub open spec fn states(self) -> Map<u64, TextureState> {
        texture_states(self.textures@)
    }

    /// An overlay without textures or buffers.
    pub fn new() -> (paint: Self)
        ensures
            paint.states() == Map::<u64, TextureState>::empty(),
            paint.vtx is None,
            paint.idx is None,
    {
        let paint = EguiPaint { textures: HashMap::new(), vtx: None, idx: None };
        proof {
            assert(paint.states() =~= Map::<u64, TextureState>::empty());
        }
        paint
    }

    /// Makes one change.
    fn apply_set(&mut self, id: u64, delta: ImageDelta) -> (r: SrResult<()>)
        requires
            set_applies(old(self).states(), id, delta) ==> (delta.pos matches Some(pos)
                ==> patch_fits(old(self).states()[id], delta, pos)),
        ensures
            final(self).vtx == old(self).vtx,
            final(self).idx == old(self).idx,
            match r {
                Ok(_) => {
                    &&& set_applies(old(self).states(), id, delta)
                    &&& final(self).states() == after_set(old(self).states(), id, delta)
                },
                Err(e) => {
                    &&& !set_applies(old(self).states(), id, delta)
                    &&& final(self).states() == old(self).states()
                    &&& e.is_custom(part_without_texture())
                },
            },
    {
        match delta.pos {
            Some(pos) => match self.textures.remove(&id) {
                Some(texture) => {
                    let mut texture = texture;
                    patch(&mut texture, &delta, pos);
                    self.textures.insert(id, texture);
                    proof {
                        assert(self.states() =~= after_set(old(self).states(), id, delta));
                    }
                    Ok(())
                },
                None => {
                    proof {
                        assert(self.textures@ =~= old(self).textures@);
                    }
                    Err(
                        SrError::new_custom(
                            String::from_str("egui sub-region texture update before full set"),
                        ),
                    )
                },
            },
            None => {
                self.textures.insert(
                    id,
                    EguiTexture {
                        backing: delta.rgba,
                        width: delta.width,
                        height: delta.height,
                    },
                );
                proof {
                    assert(self.states() =~= after_set(old(self).states(), id, delta));
                }
                Ok(())
            },
        }
    }

    /// Makes the changes of a frame in order, and then frees what is to be freed. Returns
    /// the textures that changed, for their images to be made anew. A part that comes
    /// before its texture ends this with what was changed until then.
    pub fn apply_texture_deltas(&mut self, delta: TexturesDelta) -> (r: SrResult<Vec<u64>>)
        requires
            parts_fit(old(self).states(), delta.set@),
        ensures
            final(self).vtx == old(self).vtx,
            final(self).idx == old(self).idx,
            match r {
                Ok(changed) => {
                    &&& forall|i: int|
                        0 <= i < delta.set@.len() ==> #[trigger] applies_at(
                            old(self).states(),
                            delta.set@,
                            i,
                        )
                    &&& changed@ == touched_textures(delta.set@)
                    &&& final(self).states() == after_frees(
                        after_sets(old(self).states(), delta.set@, delta.set@.len()),
                        delta.free@,
                        delta.free@.len(),
                    )
                },
                Err(e) => exists|at: int| #[trigger]
                    fails_first(old(self).states(), delta.set@, at) && final(self).states()
                        == after_sets(old(self).states(), delta.set@, at as nat) && e.is_custom(
                        part_without_texture(),
                    ),
            },
    {
        let ghost before = self.states();
        let TexturesDelta { set, free } = delta;
        let ghost all = set@;
        let mut rest = set;
        let mut changed: Vec<u64> = Vec::new();
        let ghost mut done: nat = 0;
        proof {
            assert(all.skip(0) =~= all);
            assert(touched_textures(all).take(0) =~= Seq::empty());
        }
        while rest.len() > 0
            invariant
                all == delta.set@,
                done <= all.len(),
                rest@ == all.skip(done as int),
                parts_fit(before, all),
                before == old(self).states(),
                self.vtx == old(self).vtx,
                self.idx == old(self).idx,
                self.states() == after_sets(before, all, done),
                changed@ == touched_textures(all).take(done as int),
                forall|i: int| 0 <= i < done ==> #[trigger] applies_at(before, all, i),
            decreases rest.len(),
        {
            let (id, change) = rest.remove(0);
            proof {
                assert(all.skip(done as int)[0] == all[done as int]);
                assert(rest@ =~= all.skip(done + 1int));
                assert(applies_at(before, all, done as int) == set_applies(
                    self.states(),
                    id,
                    change,
                ));
            }
            let applied = self.apply_set(id, change);
            match applied {
                Ok(_) => {},
                Err(e) => {
                    proof {
                        let at = done as int;
                        assert(fails_first(before, all, at));
                        assert(self.states() == after_sets(before, all, at as nat));
                    }
                    return Err(e);
                },
            }
            changed.push(id);
            proof {
                assert(applies_at(before, all, done as int));
                assert(changed@ =~= touched_textures(all).take(done + 1int));
                done = done + 1;
            }
        }
        proof {
            assert(touched_textures(all).take(all.len() as int) =~= touched_textures(all));
        }
        let ghost set_state = self.states();
        for i in 0..free.len()
            invariant
                self.vtx == old(self).vtx,
                self.idx == old(self).idx,
                self.states() == after_frees(set_state, free@, i as nat),
        {
            let ghost here = self.states();
            self.textures.remove(&free[i]);
            proof {
                assert(self.states() =~= here.remove(free@[i as int]));
            }
        }
        Ok(changed)
    }
}

/// The image of a texture.
pub fn texture_image_desc(width: usize, height: usize) -> (desc: ImageDesc)
    ensures
        desc == (ImageDesc {
            extent: (width as u32, height as u32, 1),
            format: FORMAT_R8G8B8A8_UNORM,
            tiling: 0,
            location: MemoryLocation::GpuOnly,
            usage: IMAGE_USAGE_SAMPLED,
            name: "egui texture",
        }),
{
    ImageDesc {
        extent: (#[verifier::truncate] (width as u32), #[verifier::truncate] (height as u32), 1),
        format: FORMAT_R8G8B8A8_UNORM,
        tiling: 0,
        location: MemoryLocation::GpuOnly,
        usage: IMAGE_USAGE_SAMPLED,
        name: "egui texture",
    }
}

// ---------------------------------------------------------------------------
// Painting
// ---------------------------------------------------------------------------

pub const FORMAT_R8G8B8A8_UNORM: i32 = 37;
pub const IMAGE_USAGE_SAMPLED: u32 = 0x4;
pub const BUFFER_USAGE_INDEX: u32 = 0x40;
pub const BUFFER_USAGE_VERTEX: u32 = 0x80;

/// How many bytes an index takes.
pub const INDEX_BYTES: u64 = 4;

/// A draw as it is recorded.
#[derive(Clone, Copy, Debug, PartialEq, Eq, Structural)]
pub struct PaintDraw {
    pub scissor: Scissor,
    pub texture: u64,
    pub idx_count: u32,
    pub idx_start: u32,
    pub vtx_offset: i32,
}

/// An overlay that is ready to be recorded: the textures to make anew, the buffers to
/// make, what they are filled with, the draws, and what its submission waits for and
/// signals.
#[derive(Debug)]
pub struct FramePaint {
    pub changed_textures: Vec<u64>,
    pub make_vtx: Option<BufferDesc>,
    pub make_idx: Option<BufferDesc>,
    pub vertices: Vec<GpuVertex>,
    pub indices: Vec<u32>,
    pub draws: Vec<PaintDraw>,
    pub waits: Vec<SemaphoreOp>,
    pub signals: Vec<SemaphoreOp>,
}

/// Whether a draw shows: its texture is there, and something of it lies on the image.
pub open spec fn shows(draw: DrawCmd, textures: Set<u64>, extent: (u32, u32)) -> bool {
    let scissor = clipped(draw.clip, extent);
    textures.contains(draw.texture) && scissor.width > 0 && scissor.height > 0
}

/// The draws among the first `n` that show, in order.
pub open spec fn shown_draws(
    draws: Seq<DrawCmd>,
    textures: Set<u64>,
    extent: (u32, u32),
    n: nat,
) -> Seq<PaintDraw>
    decreases n,
{
    if 0 < n <= draws.len() {
        let before = shown_draws(draws, textures, extent, (n - 1) as nat);
        let draw = draws[n - 1];
        if shows(draw, textures, extent) {
            before.push(
                PaintDraw {
                    scissor: clipped(draw.clip, extent),
                    texture: draw.texture,
                    idx_count: draw.idx_count,
                    idx_start: draw.idx_start,
                    vtx_offset: draw.vtx_offset,
                },
            )
        } else {
            before
        }
    } else {
        Seq::empty()
    }
}

/// The buffer that is made to hold `count` things of some size, if one is made.
pub open spec fn made_for(
    current: Option<u64>,
    count: nat,
    size: u64,
    usage: u32,
    name: &'static str,
) -> Option<BufferDesc> {
    let needed = (count * size) as u64;
    if count == 0 || (current matches Some(held) && held >= needed) {
        None
    } else {
        Some(
            BufferDesc {
                byte_size: capacity_for(needed),
                alignment: 16,
                memory_location: MemoryLocation::CpuToGpu,
                usage,
                name,
            },
        )
    }
}

/// What a buffer holds after `made` was made in its place, if it was.
pub open spec fn held_after(current: Option<u64>, made: Option<BufferDesc>) -> Option<u64> {
    match made {
        Some(desc) => Some(desc.byte_size),
        None => current,
    }
}

/// Makes room for `count` things of some size.
fn make_room(
    current: &mut Option<u64>,
    count: usize,
    size: u64,
    usage: u32,
    name: &'static str,
) -> (made: Option<BufferDesc>)
    requires
        count * size * 2 <= u64::MAX,
    ensures
        made == made_for(*old(current), count as nat, size, usage, name),
        *final(current) == held_after(*old(current), made),
{
    if count == 0 {
        return None;
    }
    proof {
        let c = count as int;
        let z = size as int;
        assert(c * z <= c * z * 2) by (nonlinear_arith)
            requires
                0 <= c,
                0 <= z,
        ;
    }
    let needed: u64 = count as u64 * size;
    let made = ensure_buffer(*current, needed, usage, name);
    if let Some(desc) = made {
        *current = Some(desc.byte_size);
    }
    made
}

impl EguiPaint {
    /// Prepares the overlay of a frame: its textures are brought up to date, its geometry
    /// is put in one piece and room is made for it, and what shows of it is listed. Its
    /// submission waits for the frame below it and signals that the image can be shown.
    pub fn paint_frame(
        &mut self,
        extent: (u32, u32),
        primitives: &Vec<UiPrimitive>,
        delta: TexturesDelta,
        ready_sem: u64,
        render_done_sem: u64,
        render_done_value: u64,
    ) -> (r: SrResult<FramePaint>)
        requires
            parts_fit(old(self).states(), delta.set@),
            geometry_fits(primitives@),
        ensures
            match r {
                Ok(paint) => {
                    let vertices = all_vertices(primitives@, primitives@.len());
                    let indices = all_indices(primitives@, primitives@.len());
                    &&& final(self).states() == after_frees(
                        after_sets(old(self).states(), delta.set@, delta.set@.len()),
                        delta.free@,
                        delta.free@.len(),
                    )
                    &&& paint.changed_textures@ == touched_textures(delta.set@)
                    &&& paint.vertices@ == vertices
                    &&& paint.indices@ == indices
                    &&& paint.make_vtx == made_for(
                        old(self).vtx,
                        vertices.len(),
                        VERTEX_BYTES,
                        BUFFER_USAGE_VERTEX,
                        "egui vtx",
                    )
                    &&& paint.make_idx == made_for(
                        old(self).idx,
                        indices.len(),
                        INDEX_BYTES,
                        BUFFER_USAGE_INDEX,
                        "egui idx",
                    )
                    &&& final(self).vtx == held_after(old(self).vtx, paint.make_vtx)
                    &&& final(self).idx == held_after(old(self).idx, paint.make_idx)
                    &&& paint.draws@ == shown_draws(
                        all_draws(primitives@, primitives@.len()),
                        final(self).states().dom(),
                        extent,
                        all_draws(primitives@, primitives@.len()).len(),
                    )
                    &&& paint.waits@ == seq![
                        (render_done_sem, render_done_value, STAGE_ALL_COMMANDS),
                    ]
                    &&& paint.signals@ == seq![(ready_sem, 0u64, STAGE_ALL_COMMANDS)]
                },
                Err(e) => {
                    &&& exists|at: int| #[trigger]
                        fails_first(old(self).states(), delta.set@, at) && final(self).states()
                            == after_sets(old(self).states(), delta.set@, at as nat)
                    &&& final(self).vtx == old(self).vtx
                    &&& final(self).idx == old(self).idx
                    &&& e.is_custom(part_without_texture())
                },
            },
    {
        let changed_textures = self.apply_texture_deltas(delta)?;
        let UiGeometry { vertices, indices, draws: commands } = gather_geometry(primitives);
        let make_vtx = make_room(
            &mut self.vtx,
            vertices.len(),
            VERTEX_BYTES,
            BUFFER_USAGE_VERTEX,
            "egui vtx",
        );
        let make_idx = make_room(
            &mut self.idx,
            indices.len(),
            INDEX_BYTES,
            BUFFER_USAGE_INDEX,
            "egui idx",
        );
        let ghost known = self.states().dom();
        let mut draws: Vec<PaintDraw> = Vec::new();
        for i in 0..commands.len()
            invariant
                known == self.states().dom(),
                draws@ == shown_draws(commands@, known, extent, i as nat),
        {
            let command = commands[i];
            assert(known.contains(command.texture) <==> self.textures@.contains_key(
                command.texture,
            ));
            if self.textures.contains_key(&command.texture) {
                let scissor = clip_to_scissor(command.clip, extent);
                if scissor.width > 0 && scissor.height > 0 {
                    draws.push(
                        PaintDraw {
                            scissor,
                            texture: command.texture,
                            idx_count: command.idx_count,
                            idx_start: command.idx_start,
                            vtx_offset: command.vtx_offset,
                        },
                    );
                }
            }
        }
        let mut waits: Vec<SemaphoreOp> = Vec::new();
        waits.push((render_done_sem, render_done_value, STAGE_ALL_COMMANDS));
        let mut signals: Vec<SemaphoreOp> = Vec::new();
        signals.push((ready_sem, 0, STAGE_ALL_COMMANDS));
        proof {
            assert(waits@ =~= seq![(render_done_sem, render_done_value, STAGE_ALL_COMMANDS)]);
            assert(signals@ =~= seq![(ready_sem, 0u64, STAGE_ALL_COMMANDS)]);
        }
        Ok(
            FramePaint {
                changed_textures,
                make_vtx,
                make_idx,
                vertices,
                indices,
                draws,
                waits,
                signals,
            },
        )
    }
}

} // verus!
