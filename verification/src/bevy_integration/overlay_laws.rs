//! What the overlay shows and what it is told.

use vstd::prelude::*;

use crate::bevy_integration::egui_paint::{
    after_frees, after_set, after_sets, all_draws, all_indices, all_vertices, applies_at,
    clip_to_scissor, clipped, drawn, ensure_buffer, gather_geometry, geometry_fits, image_data_to_rgba,
    reads_primitive, shown_draws, shows, touched_textures, DrawCmd, EguiPaint, FramePaint,
    GpuVertex, ImageDelta, PaintDraw, PixelClip, Scissor, TextureState, TexturesDelta, UiGeometry,
    UiPrimitive,
};
use crate::bevy_integration::egui_support::{
    build_modifiers, button_events, event_states, is_control, key_events, keyboard_events,
    makes_text, pointer_after, ButtonChange, EguiInputState, EventState, FrameInput, HeldKeys, KeyPress,
    Modifiers, PointerButton, UiEvent,
};
use crate::error::SrError;
use crate::render_graph::alias::MemoryLocation;
use crate::render_graph::resource::BufferDesc;
use crate::renderer_laws::has_op;

verus! {

// ---------------------------------------------------------------------------
// Clipping
// ---------------------------------------------------------------------------

/// Whether a pixel lies in a scissor.
pub open spec fn in_scissor(scissor: Scissor, x: int, y: int) -> bool {
    scissor.x <= x < scissor.x + scissor.width && scissor.y <= y < scissor.y + scissor.height
}

/// Whether a pixel lies in a clip rectangle and on an image.
pub open spec fn in_clip(clip: PixelClip, extent: (u32, u32), x: int, y: int) -> bool {
    &&& clip.min_x <= x < clip.max_x && clip.min_y <= y < clip.max_y
    &&& x < extent.0 && y < extent.1
}

/// A scissor holds the pixels of its clip rectangle that lie on the image, and no others.
pub proof fn law_scissors_hold_what_is_clipped(
    clip: PixelClip,
    extent: (u32, u32),
    scissor: Scissor,
    x: int,
    y: int,
)
    requires
        call_ensures(clip_to_scissor, (clip, extent), scissor),
    ensures
        in_scissor(scissor, x, y) <==> in_clip(clip, extent, x, y),
{
}

// ---------------------------------------------------------------------------
// Geometry
// ---------------------------------------------------------------------------

proof fn lemma_drawn_has_draw(primitives: Seq<UiPrimitive>, n: nat, p: int) -> (d: int)
    requires
        geometry_fits(primitives),
        0 <= p < n <= primitives.len(),
        drawn(primitives[p]),
    ensures
        0 <= d < all_draws(primitives, n).len(),
        d <= p,
        all_draws(primitives, n)[d].texture == primitives[p]->Mesh_0.texture,
        all_draws(primitives, n)[d].clip == primitives[p]->Mesh_0.clip,
        all_draws(primitives, n)[d].idx_start == all_indices(primitives, p as nat).len(),
        all_draws(primitives, n)[d].idx_count == primitives[p]->Mesh_0.indices@.len(),
        all_draws(primitives, n)[d].vtx_offset == all_vertices(primitives, p as nat).len(),
    decreases n,
{
    lemma_grows(primitives, p as nat, primitives.len());
    lemma_grows(primitives, (p + 1) as nat, primitives.len());
    lemma_fewer(primitives, (n - 1) as nat);
    if p == n - 1 {
        all_draws(primitives, (n - 1) as nat).len() as int
    } else {
        let d = lemma_drawn_has_draw(primitives, (n - 1) as nat, p);
        d
    }
}

proof fn lemma_fewer(primitives: Seq<UiPrimitive>, n: nat)
    requires
        n <= primitives.len(),
    ensures
        all_draws(primitives, n).len() <= n,
    decreases n,
{
    if n > 0 {
        lemma_fewer(primitives, (n - 1) as nat);
    }
}

proof fn lemma_grows(primitives: Seq<UiPrimitive>, m: nat, n: nat)
    requires
        m <= n <= primitives.len(),
    ensures
        all_vertices(primitives, m).len() <= all_vertices(primitives, n).len(),
        all_indices(primitives, m).len() <= all_indices(primitives, n).len(),
        all_vertices(primitives, n).take(all_vertices(primitives, m).len() as int)
            == all_vertices(primitives, m),
        all_indices(primitives, n).take(all_indices(primitives, m).len() as int)
            == all_indices(primitives, m),
    decreases n,
{
    let v = all_vertices(primitives, n);
    let i = all_indices(primitives, n);
    if m < n {
        lemma_grows(primitives, m, (n - 1) as nat);
        let vm = all_vertices(primitives, m);
        let im = all_indices(primitives, m);
        let few_v = all_vertices(primitives, (n - 1) as nat);
        let few_i = all_indices(primitives, (n - 1) as nat);
        assert(v.take(vm.len() as int) =~= few_v.take(vm.len() as int));
        assert(i.take(im.len() as int) =~= few_i.take(im.len() as int));
    } else {
        assert(v.take(v.len() as int) =~= v);
        assert(i.take(i.len() as int) =~= i);
    }
}

/// Every primitive with triangles is drawn, with its own texture, clip, indices and corners,
/// and in its turn: what comes later is drawn later.
pub proof fn law_every_primitive_is_drawn(
    primitives: Vec<UiPrimitive>,
    geometry: UiGeometry,
    p: int,
    later: int,
) -> (r: (int, int))
    requires
        geometry_fits(primitives@),
        call_ensures(gather_geometry, (&primitives,), geometry),
        0 <= p < later < primitives@.len(),
        primitives@[p] matches UiPrimitive::Mesh(mesh) && mesh.indices@.len() > 0,
        primitives@[later] matches UiPrimitive::Mesh(mesh) && mesh.indices@.len() > 0,
    ensures
        ({
            let (d, e) = r;
            let mesh = primitives@[p]->Mesh_0;
            let draw = geometry.draws@[d];
            &&& 0 <= d < e < geometry.draws@.len()
            &&& draw.texture == mesh.texture
            &&& draw.clip == mesh.clip
            &&& geometry.draws@[e].texture == primitives@[later]->Mesh_0.texture
            &&& geometry.draws@[e].clip == primitives@[later]->Mesh_0.clip
            &&& draw.idx_count == mesh.indices@.len()
            &&& draw.idx_start + draw.idx_count <= geometry.indices@.len()
            &&& forall|k: int|
                0 <= k < mesh.indices@.len() ==> geometry.indices@[draw.idx_start + k]
                    == #[trigger] mesh.indices@[k]
            &&& draw.vtx_offset + mesh.vertices@.len() <= geometry.vertices@.len()
            &&& forall|k: int|
                0 <= k < mesh.vertices@.len() ==> geometry.vertices@[draw.vtx_offset + k]
                    == #[trigger] mesh.vertices@[k]
        }),
{
    let all = primitives@;
    let n = all.len();
    let d = lemma_drawn_has_draw(all, n, p);
    let e = lemma_drawn_has_draw(all, n, later);
    let mesh = all[p]->Mesh_0;
    lemma_grows(all, (p + 1) as nat, n);
    let from = all_indices(all, p as nat);
    let to = all_indices(all, (p + 1) as nat);
    assert forall|k: int| 0 <= k < mesh.indices@.len() implies geometry.indices@[from.len() + k]
        == #[trigger] mesh.indices@[k] by {
        assert(geometry.indices@.take(to.len() as int)[from.len() + k] == to[from.len() + k]);
    }
    let vfrom = all_vertices(all, p as nat);
    let vto = all_vertices(all, (p + 1) as nat);
    assert forall|k: int| 0 <= k < mesh.vertices@.len() implies geometry.vertices@[vfrom.len() + k]
        == #[trigger] mesh.vertices@[k] by {
        assert(geometry.vertices@.take(vto.len() as int)[vfrom.len() + k] == vto[vfrom.len() + k]);
    }
    lemma_grows(all, (p + 1) as nat, later as nat);
    assert(d < e) by {
        lemma_draw_order(all, n, d, e);
    }
    (d, e)
}

/// Draws start one behind the other.
proof fn lemma_draw_order(primitives: Seq<UiPrimitive>, n: nat, d: int, e: int)
    requires
        geometry_fits(primitives),
        n <= primitives.len(),
        0 <= d < all_draws(primitives, n).len(),
        0 <= e < all_draws(primitives, n).len(),
        all_draws(primitives, n)[d].idx_start < all_draws(primitives, n)[e].idx_start,
    ensures
        d < e,
{
    if e < d {
        lemma_starts_ascend(primitives, n, e, d);
    }
}

proof fn lemma_starts_ascend(primitives: Seq<UiPrimitive>, n: nat, d: int, e: int)
    requires
        geometry_fits(primitives),
        n <= primitives.len(),
        0 <= d < e < all_draws(primitives, n).len(),
    ensures
        all_draws(primitives, n)[d].idx_start < all_draws(primitives, n)[e].idx_start,
        all_draws(primitives, n)[e].idx_start < all_indices(primitives, n).len(),
    decreases n,
{
    let m = (n - 1) as nat;
    let few = all_draws(primitives, m);
    lemma_grows(primitives, m, primitives.len());
    lemma_grows(primitives, n, primitives.len());
    if drawn(primitives[n - 1]) && e == few.len() {
        lemma_start_below(primitives, m, d);
    } else {
        lemma_starts_ascend(primitives, m, d, e);
    }
}

proof fn lemma_start_below(primitives: Seq<UiPrimitive>, n: nat, d: int)
    requires
        geometry_fits(primitives),
        n <= primitives.len(),
        0 <= d < all_draws(primitives, n).len(),
    ensures
        all_draws(primitives, n)[d].idx_start < all_indices(primitives, n).len(),
    decreases n,
{
    let m = (n - 1) as nat;
    let few = all_draws(primitives, m);
    lemma_grows(primitives, m, primitives.len());
    lemma_grows(primitives, n, primitives.len());
    if d < few.len() {
        lemma_start_below(primitives, m, d);
    }
}

// ---------------------------------------------------------------------------
// Buffers
// ---------------------------------------------------------------------------

/// A buffer is made when what there is does not hold what is needed, and only then. One that
/// is made holds it, can be written by the host, is of the use that was asked for, and is
/// still large enough for twice as much.
pub proof fn law_buffers_hold_what_is_needed(
    current: Option<u64>,
    needed: u64,
    later: u64,
    usage: u32,
    name: &'static str,
    made: Option<BufferDesc>,
    made_later: Option<BufferDesc>,
)
    requires
        needed * 2 <= u64::MAX,
        later * 2 <= u64::MAX,
        call_ensures(ensure_buffer, (current, needed, usage, name), made),
        made matches Some(desc) ==> call_ensures(
            ensure_buffer,
            (Some(desc.byte_size), later, usage, name),
            made_later,
        ),
    ensures
        made is None <==> (current matches Some(size) && size >= needed),
        made matches Some(desc) ==> {
            &&& desc.byte_size >= needed
            &&& desc.byte_size > 0
            &&& desc.usage == usage
            &&& desc.memory_location == MemoryLocation::CpuToGpu
            &&& later <= 2 * needed ==> made_later is None
        },
{
}

/// The bytes of an image are those of its pixels, four by four.
pub proof fn law_bytes_are_the_pixels(pixels: Vec<[u8; 4]>, rgba: Vec<u8>, i: int, c: int)
    requires
        call_ensures(image_data_to_rgba, (&pixels,), rgba),
        0 <= i < pixels@.len(),
        0 <= c < 4,
    ensures
        rgba@.len() == 4 * pixels@.len(),
        rgba@[4 * i + c] == pixels@[i]@[c],
{
    assert((4 * i + c) / 4 == i && (4 * i + c) % 4 == c);
}

// ---------------------------------------------------------------------------
// Textures
// ---------------------------------------------------------------------------

proof fn lemma_sets_elsewhere(
    textures: Map<u64, TextureState>,
    set: Seq<(u64, ImageDelta)>,
    m: nat,
    n: nat,
    id: u64,
)
    requires
        m <= n <= set.len(),
        forall|k: int| m <= k < n ==> (#[trigger] set[k]).0 != id,
    ensures
        after_sets(textures, set, n).contains_key(id) <==> after_sets(textures, set, m).contains_key(
            id,
        ),
        after_sets(textures, set, n)[id] == after_sets(textures, set, m)[id],
    decreases n,
{
    if m < n {
        lemma_sets_elsewhere(textures, set, m, (n - 1) as nat, id);
        assert(set[n - 1].0 != id);
    }
}

proof fn lemma_frees(textures: Map<u64, TextureState>, free: Seq<u64>, n: nat, id: u64)
    requires
        n <= free.len(),
    ensures
        after_frees(textures, free, n).contains_key(id) <==> textures.contains_key(id) && !free.take(
            n as int,
        ).contains(id),
        after_frees(textures, free, n).contains_key(id) ==> after_frees(textures, free, n)[id]
            == textures[id],
    decreases n,
{
    if n > 0 {
        lemma_frees(textures, free, (n - 1) as nat, id);
        let few = free.take(n - 1);
        let all = free.take(n as int);
        assert(all =~= few.push(free[n - 1]));
        if few.contains(id) {
            let k = choose|k: int| 0 <= k < few.len() && few[k] == id;
            assert(all[k] == id);
        }
        assert(all[n - 1] == free[n - 1]);
        if all.contains(id) && !few.contains(id) {
            let k = choose|k: int| 0 <= k < all.len() && all[k] == id;
            if k < n - 1 {
                assert(few[k] == id);
            }
        }
    }
}

/// Textures are what was last said of them: one that is freed is gone, one that is set whole
/// is what it was set to, and one that nothing is said of stays as it is. Each that was set
/// is named as changed.
pub proof fn law_textures_are_what_was_last_said(
    paint: &mut EguiPaint,
    delta: TexturesDelta,
    changed: Vec<u64>,
    id: u64,
    i: int,
)
    requires
        call_ensures(EguiPaint::apply_texture_deltas, (paint, delta), Ok::<Vec<u64>, SrError>(changed)),
        0 <= i < delta.set@.len(),
    ensures
        ({
            let before = old(paint).states();
            let after = final(paint).states();
            let (set_id, image) = delta.set@[i];
            &&& delta.free@.contains(id) ==> !after.contains_key(id)
            &&& !delta.free@.contains(id) && (forall|k: int|
                0 <= k < delta.set@.len() ==> (#[trigger] delta.set@[k]).0 != id) ==> (
            after.contains_key(id) <==> before.contains_key(id)) && (before.contains_key(id)
                ==> after[id] == before[id])
            &&& !delta.free@.contains(set_id) && image.pos is None && (forall|k: int|
                i < k < delta.set@.len() ==> (#[trigger] delta.set@[k]).0 != set_id) ==> {
                &&& after.contains_key(set_id)
                &&& after[set_id].backing == image.rgba@
                &&& after[set_id].width == image.width
                &&& after[set_id].height == image.height
            }
            &&& changed@.len() == delta.set@.len()
            &&& changed@[i] == set_id
        }),
        final(paint).vtx == old(paint).vtx,
        final(paint).idx == old(paint).idx,
{
    let before = old(paint).states();
    let set = delta.set@;
    let free = delta.free@;
    let sets = after_sets(before, set, set.len());
    let (set_id, image) = set[i];
    lemma_frees(sets, free, free.len(), id);
    lemma_frees(sets, free, free.len(), set_id);
    assert(free.take(free.len() as int) =~= free);
    if forall|k: int| 0 <= k < set.len() ==> (#[trigger] set[k]).0 != id {
        lemma_sets_elsewhere(before, set, 0, set.len(), id);
    }
    if forall|k: int| i < k < set.len() ==> (#[trigger] set[k]).0 != set_id {
        lemma_sets_elsewhere(before, set, (i + 1) as nat, set.len(), set_id);
        assert(after_sets(before, set, (i + 1) as nat) == after_set(
            after_sets(before, set, i as nat),
            set_id,
            image,
        ));
    }
}

// ---------------------------------------------------------------------------
// Painting
// ---------------------------------------------------------------------------

/// Whether a draw is recorded of a command: with the same triangles and texture, and the
/// pixels of its clip rectangle.
pub open spec fn records(draw: PaintDraw, command: DrawCmd, extent: (u32, u32)) -> bool {
    &&& draw.texture == command.texture
    &&& draw.idx_count == command.idx_count
    &&& draw.idx_start == command.idx_start
    &&& draw.vtx_offset == command.vtx_offset
    &&& forall|x: int, y: int| #[trigger]
        in_scissor(draw.scissor, x, y) <==> in_clip(command.clip, extent, x, y)
}

/// Whether some pixel of a clip rectangle lies on an image.
pub open spec fn touches_image(clip: PixelClip, extent: (u32, u32)) -> bool {
    exists|x: int, y: int| #[trigger] in_clip(clip, extent, x, y)
}

/// Whether `at` picks the commands that the draws are recorded of: in their order, those
/// whose texture is there and whose clip rectangle meets the image, and all of them.
pub open spec fn picks_what_shows(
    draws: Seq<PaintDraw>,
    commands: Seq<DrawCmd>,
    textures: Set<u64>,
    extent: (u32, u32),
    at: Seq<int>,
) -> bool {
    &&& at.len() == draws.len()
    &&& forall|i: int, j: int| #![trigger at[i], at[j]] 0 <= i < j < at.len() ==> at[i] < at[j]
    &&& forall|i: int|
        0 <= i < at.len() ==> 0 <= #[trigger] at[i] < commands.len() && records(
            draws[i],
            commands[at[i]],
            extent,
        ) && textures.contains(commands[at[i]].texture) && touches_image(
            commands[at[i]].clip,
            extent,
        )
    &&& forall|d: int|
        0 <= d < commands.len() && textures.contains((#[trigger] commands[d]).texture)
            && touches_image(commands[d].clip, extent) ==> at.contains(d)
}

proof fn lemma_shown(
    draws: Seq<DrawCmd>,
    textures: Set<u64>,
    extent: (u32, u32),
    n: nat,
) -> (at: Seq<int>)
    requires
        n <= draws.len(),
    ensures
        at.len() == shown_draws(draws, textures, extent, n).len(),
        forall|i: int|
            0 <= i < at.len() ==> 0 <= #[trigger] at[i] < n && records(
                shown_draws(draws, textures, extent, n)[i],
                draws[at[i]],
                extent,
            ) && textures.contains(draws[at[i]].texture) && touches_image(
                draws[at[i]].clip,
                extent,
            ),
        forall|i: int, j: int| #![trigger at[i], at[j]] 0 <= i < j < at.len() ==> at[i] < at[j],
        forall|d: int|
            0 <= d < n && textures.contains((#[trigger] draws[d]).texture) && touches_image(
                draws[d].clip,
                extent,
            ) ==> at.contains(d),
    decreases n,
{
    if n == 0 {
        Seq::empty()
    } else {
        let few = lemma_shown(draws, textures, extent, (n - 1) as nat);
        let draw = draws[n - 1];
        let scissor = clipped(draw.clip, extent);
        assert forall|x: int, y: int| #[trigger] in_scissor(scissor, x, y) <==> in_clip(
            draw.clip,
            extent,
            x,
            y,
        ) by {}
        if scissor.width > 0 && scissor.height > 0 {
            assert(in_scissor(scissor, scissor.x as int, scissor.y as int));
            assert(in_clip(draw.clip, extent, scissor.x as int, scissor.y as int));
        }
        if touches_image(draw.clip, extent) {
            let (x, y) = choose|x: int, y: int| #[trigger] in_clip(draw.clip, extent, x, y);
            assert(in_scissor(scissor, x, y));
        }
        if shows(draw, textures, extent) {
            let at = few.push(n - 1);
            let all = shown_draws(draws, textures, extent, n);
            let before = shown_draws(draws, textures, extent, (n - 1) as nat);
            assert forall|i: int| 0 <= i < at.len() implies 0 <= #[trigger] at[i] < n && records(
                all[i],
                draws[at[i]],
                extent,
            ) && textures.contains(draws[at[i]].texture) && touches_image(
                draws[at[i]].clip,
                extent,
            ) by {
                if i < few.len() {
                    assert(at[i] == few[i]);
                    assert(all[i] == before[i]);
                }
            }
            assert forall|d: int|
                0 <= d < n && textures.contains((#[trigger] draws[d]).texture) && touches_image(
                    draws[d].clip,
                    extent,
                ) implies at.contains(d) by {
                if d < n - 1 {
                    let i = choose|i: int| 0 <= i < few.len() && few[i] == d;
                    assert(at[i] == d);
                } else {
                    assert(at[few.len() as int] == d);
                }
            }
            at
        } else {
            few
        }
    }
}

/// What is painted is what shows: every draw whose texture is there and whose clip rectangle
/// meets the image is recorded, in its turn, and no other. It waits for the frame below it
/// and tells the one who shows the image. What is written fits the buffers.
pub proof fn law_what_shows_is_painted(
    paint: &mut EguiPaint,
    extent: (u32, u32),
    primitives: Vec<UiPrimitive>,
    delta: TexturesDelta,
    ready_sem: u64,
    render_done_sem: u64,
    render_done_value: u64,
    painted: FramePaint,
    geometry: UiGeometry,
)
    requires
        geometry_fits(primitives@),
        call_ensures(
            EguiPaint::paint_frame,
            (
                paint,
                extent,
                &primitives,
                delta,
                ready_sem,
                render_done_sem,
                render_done_value,
            ),
            Ok::<FramePaint, SrError>(painted),
        ),
        call_ensures(gather_geometry, (&primitives,), geometry),
    ensures
        painted.vertices@ == geometry.vertices@,
        painted.indices@ == geometry.indices@,
        exists|at: Seq<int>| #[trigger]
            picks_what_shows(
                painted.draws@,
                geometry.draws@,
                final(paint).states().dom(),
                extent,
                at,
            ),
        painted.vertices@.len() > 0 ==> (final(paint).vtx matches Some(size) && size
            >= painted.vertices@.len() * 20),
        painted.indices@.len() > 0 ==> (final(paint).idx matches Some(size) && size
            >= painted.indices@.len() * 4),
        painted.make_vtx matches Some(desc) ==> final(paint).vtx == Some(desc.byte_size)
            && desc.usage == 0x80,
        painted.make_idx matches Some(desc) ==> final(paint).idx == Some(desc.byte_size)
            && desc.usage == 0x40,
        painted.make_vtx is None ==> final(paint).vtx == old(paint).vtx,
        painted.make_idx is None ==> final(paint).idx == old(paint).idx,
        has_op(painted.waits@, render_done_sem, render_done_value),
        has_op(painted.signals@, ready_sem, 0),
        painted.waits@.len() == 1,
        painted.signals@.len() == 1,
{
    let known = final(paint).states().dom();
    let at = lemma_shown(geometry.draws@, known, extent, geometry.draws@.len());
    assert(painted.waits@[0].0 == render_done_sem);
    assert(painted.signals@[0].0 == ready_sem);
    let all = primitives@;
    let v = all_vertices(all, all.len()).len() as int;
    let i = all_indices(all, all.len()).len() as int;
    assert(v * 20 <= u64::MAX && i * 4 <= u64::MAX);
    assert(picks_what_shows(painted.draws@, geometry.draws@, known, extent, at));
}

// ---------------------------------------------------------------------------
// Input
// ---------------------------------------------------------------------------

/// A modifier is held if either of its keys is, whichever side it is on. Shortcuts go by
/// control, and on a Mac by the command key, which counts nowhere else.
pub proof fn law_either_key_is_the_modifier(
    keys: HeldKeys,
    mac: bool,
    modifiers: Modifiers,
)
    requires
        call_ensures(build_modifiers, (keys, mac), modifiers),
    ensures
        !modifiers.ctrl <==> !keys.control_left && !keys.control_right,
        !modifiers.alt <==> !keys.alt_left && !keys.alt_right,
        !modifiers.shift <==> !keys.shift_left && !keys.shift_right,
        !mac ==> !modifiers.mac_cmd && modifiers.command == modifiers.ctrl,
        mac ==> modifiers.command == modifiers.mac_cmd && (!modifiers.mac_cmd <==> !keys.super_left
            && !keys.super_right),
{
}

proof fn lemma_key_told(keyboard: Seq<KeyPress>, modifiers: Modifiers, n: nat, i: int, k: int)
    requires
        0 <= i < n <= keyboard.len(),
        0 <= k < key_events(keyboard[i], modifiers).len(),
    ensures
        keyboard_events(keyboard, modifiers, n).contains(key_events(keyboard[i], modifiers)[k]),
    decreases n,
{
    let all = keyboard_events(keyboard, modifiers, n);
    let few = keyboard_events(keyboard, modifiers, (n - 1) as nat);
    let event = key_events(keyboard[i], modifiers)[k];
    if i == n - 1 {
        assert(all[few.len() + k] == event);
    } else {
        lemma_key_told(keyboard, modifiers, (n - 1) as nat, i, k);
        let j = choose|j: int| 0 <= j < few.len() && few[j] == event;
        assert(all[j] == event);
    }
}

/// Whether a text has no control characters and is not empty.
pub open spec fn is_plain(text: Seq<char>) -> bool {
    text.len() > 0 && forall|i: int|
        0 <= i < text.len() ==> ('\u{1f}' < #[trigger] text[i] < '\u{7f}') || '\u{9f}' < text[i]
}

/// The user interface is told of all that happened: of the moves first and in their order,
/// of each button that went down or up, and where the pointer then was, of each turn of the
/// wheel, and of each key that has a name. Text comes of keys that go down and only if it is
/// plain. The pointer is then where it moved last.
pub proof fn law_everything_that_happened_is_told(
    state: &mut EguiInputState,
    input: FrameInput,
    modifiers: Modifiers,
    events: Vec<UiEvent>,
    i: int,
    w: int,
    k: int,
)
    requires
        call_ensures(EguiInputState::frame_events, (state, &input, modifiers), events),
        0 <= i < input.cursor_moved@.len(),
        0 <= w < input.wheel@.len(),
        0 <= k < input.keyboard@.len(),
    ensures
        ({
            let told = event_states(events@);
            let at = input.cursor_moved@[input.cursor_moved@.len() - 1];
            let press = input.keyboard@[k];
            &&& told.len() == events@.len()
            &&& i < told.len()
            &&& told[i] == EventState::PointerMoved(input.cursor_moved@[i])
            &&& final(state).pointer_pos == at
            &&& input.left.just_pressed ==> told.contains(
                EventState::PointerButton {
                    pos: at,
                    button: PointerButton::Primary,
                    pressed: true,
                    modifiers,
                },
            )
            &&& input.left.just_released && !input.left.just_pressed ==> told.contains(
                EventState::PointerButton {
                    pos: at,
                    button: PointerButton::Primary,
                    pressed: false,
                    modifiers,
                },
            )
            &&& input.right.just_pressed ==> told.contains(
                EventState::PointerButton {
                    pos: at,
                    button: PointerButton::Secondary,
                    pressed: true,
                    modifiers,
                },
            )
            &&& input.middle.just_released && !input.middle.just_pressed ==> told.contains(
                EventState::PointerButton {
                    pos: at,
                    button: PointerButton::Middle,
                    pressed: false,
                    modifiers,
                },
            )
            &&& told.contains(EventState::MouseWheel { delta: input.wheel@[w], modifiers })
            &&& press.key matches Some(key) ==> told.contains(
                EventState::Key { key, pressed: press.pressed, repeat: press.repeat, modifiers },
            )
            &&& press.text matches Some(text) ==> press.pressed && is_plain(text@)
                ==> told.contains(EventState::Text(text@))
        }),
{
    let start = old(state).pointer_pos;
    let told = event_states(events@);
    let at = input.cursor_moved@[input.cursor_moved@.len() - 1];
    let a = input.cursor_moved@.map_values(|p: [u32; 2]| EventState::PointerMoved(p));
    let l = button_events(input.left, PointerButton::Primary, at, modifiers);
    let r = button_events(input.right, PointerButton::Secondary, at, modifiers);
    let m = button_events(input.middle, PointerButton::Middle, at, modifiers);
    let wh = input.wheel@.map_values(
        |delta: [u32; 2]| EventState::MouseWheel { delta, modifiers },
    );
    let kb = keyboard_events(input.keyboard@, modifiers, input.keyboard@.len());
    assert(told == a + l + r + m + wh + kb);
    assert(told[i] == a[i]);
    let n = a.len() as int;
    if l.len() > 0 {
        assert(told[n] == l[0]);
    }
    if r.len() > 0 {
        assert(told[n + l.len()] == r[0]);
    }
    if m.len() > 0 {
        assert(told[n + l.len() + r.len()] == m[0]);
    }
    let base = n + l.len() + r.len() + m.len();
    assert(told[base + w] == wh[w]);
    let press = input.keyboard@[k];
    let own = key_events(press, modifiers);
    let kbase = base + wh.len();
    if press.key is Some {
        lemma_key_told(input.keyboard@, modifiers, input.keyboard@.len(), k, 0);
        let j = choose|j: int| 0 <= j < kb.len() && kb[j] == own[0];
        assert(told[kbase + j] == own[0]);
    }
    if let Some(text) = press.text {
        if press.pressed && is_plain(text@) {
            let last = own.len() - 1;
            assert forall|i: int| 0 <= i < text@.len() implies !is_control(
                #[trigger] text@[i],
            ) by {}
            assert(makes_text(press.text));
            assert(own[last] == EventState::Text(text@));
            lemma_key_told(input.keyboard@, modifiers, input.keyboard@.len(), k, last);
            let j = choose|j: int| 0 <= j < kb.len() && kb[j] == own[last];
            assert(told[kbase + j] == own[last]);
        }
    }
}

proof fn lemma_told_of_key(keyboard: Seq<KeyPress>, modifiers: Modifiers, n: nat, e: int) -> (k: int)
    requires
        n <= keyboard.len(),
        0 <= e < keyboard_events(keyboard, modifiers, n).len(),
    ensures
        0 <= k < n,
        key_events(keyboard[k], modifiers).contains(keyboard_events(keyboard, modifiers, n)[e]),
    decreases n,
{
    let few = keyboard_events(keyboard, modifiers, (n - 1) as nat);
    if e < few.len() {
        lemma_told_of_key(keyboard, modifiers, (n - 1) as nat, e)
    } else {
        let own = key_events(keyboard[n - 1], modifiers);
        assert(own[e - few.len()] == keyboard_events(keyboard, modifiers, n)[e]);
        n - 1
    }
}

/// What happened to a button.
pub open spec fn change_of(input: FrameInput, button: PointerButton) -> ButtonChange {
    match button {
        PointerButton::Primary => input.left,
        PointerButton::Secondary => input.right,
        PointerButton::Middle => input.middle,
    }
}

/// The user interface is told of nothing that did not happen: a move was made, a button did
/// go down, or else up, a wheel was turned, a key of this name was pressed or let go, and a
/// text came of a key that went down, and is plain.
pub proof fn law_nothing_is_made_up(
    state: &mut EguiInputState,
    input: FrameInput,
    modifiers: Modifiers,
    events: Vec<UiEvent>,
    e: int,
)
    requires
        call_ensures(EguiInputState::frame_events, (state, &input, modifiers), events),
        0 <= e < events@.len(),
    ensures
        match events@[e]@ {
            EventState::PointerMoved(pos) => input.cursor_moved@.contains(pos),
            EventState::PointerButton { pos, button, pressed, modifiers: held } => {
                let change = change_of(input, button);
                &&& held == modifiers
                &&& pos == final(state).pointer_pos
                &&& pressed ==> change.just_pressed
                &&& !pressed ==> change.just_released && !change.just_pressed
            },
            EventState::MouseWheel { delta, modifiers: held } => held == modifiers
                && input.wheel@.contains(delta),
            EventState::Key { key, pressed, repeat, modifiers: held } => held == modifiers
                && exists|k: int|
                0 <= k < input.keyboard@.len() && (#[trigger] input.keyboard@[k]).key == Some(key)
                    && input.keyboard@[k].pressed == pressed && input.keyboard@[k].repeat
                    == repeat,
            EventState::Text(text) => is_plain(text) && exists|k: int|
                0 <= k < input.keyboard@.len() && (#[trigger] input.keyboard@[k]).pressed && (
                input.keyboard@[k].text matches Some(chars) && chars@ == text),
        },
        input.cursor_moved@.len() == 0 ==> final(state).pointer_pos == old(state).pointer_pos,
{
    let told = event_states(events@);
    assert(told[e] == events@[e]@);
    let at = pointer_after(old(state).pointer_pos, input.cursor_moved@);
    let a = input.cursor_moved@.map_values(|p: [u32; 2]| EventState::PointerMoved(p));
    let l = button_events(input.left, PointerButton::Primary, at, modifiers);
    let r = button_events(input.right, PointerButton::Secondary, at, modifiers);
    let m = button_events(input.middle, PointerButton::Middle, at, modifiers);
    let wh = input.wheel@.map_values(
        |delta: [u32; 2]| EventState::MouseWheel { delta, modifiers },
    );
    let kb = keyboard_events(input.keyboard@, modifiers, input.keyboard@.len());
    assert(told == a + l + r + m + wh + kb);
    let n = a.len() as int;
    let base = n + l.len() + r.len() + m.len();
    let kbase = base + wh.len();
    assert(told.len() == kbase + kb.len());
    if e < n {
        assert(told[e] == a[e]);
        assert(input.cursor_moved@[e] == input.cursor_moved@[e]);
    } else if e < base {
    } else if e < kbase {
        assert(told[e] == wh[e - base]);
        assert(input.wheel@[e - base] == input.wheel@[e - base]);
    } else {
        assert(told[e] == kb[e - kbase]);
        let k = lemma_told_of_key(input.keyboard@, modifiers, input.keyboard@.len(), e - kbase);
        let press = input.keyboard@[k];
        let own = key_events(press, modifiers);
        let j = choose|j: int| 0 <= j < own.len() && own[j] == told[e];
        assert(input.keyboard@[k].pressed == press.pressed);
        if let EventState::Text(text) = told[e] {
            assert(makes_text(press.text));
            assert forall|i: int| 0 <= i < text.len() implies ('\u{1f}' < #[trigger] text[i]
                < '\u{7f}') || '\u{9f}' < text[i] by {
                assert(!is_control(text[i]));
            }
        }
    }
}

} // verus!
