//! What a path-traced frame guarantees.

use vstd::prelude::*;

use vk_sync_fork::AccessType;

use crate::error::SrResult;
use crate::path_tracer::{
    accum_target, all_interned, built_for, cache_of, denoise_input, denoise_output, final_pass,
    frame_declared, frame_images, frame_passes, frame_pushes, fresh_passes, groups_over, has_key,
    law_pipelines_are_built_once, pass_stands, registrations, ris_pass, Declared, PushData, RayIds,
    ShaderCode, ShaderRole, TemporalTokens, DENOISE_PASSES, FRAME_PASSES, FRAME_RESOURCES,
};
use crate::render_graph::access::{opens_write_epoch, ResourceRef};
use crate::render_graph::alias::MemoryLocation;
use crate::render_graph::analysis::{producers_match, producers_of, touches};
use crate::render_graph::compile::{declared, survivors};
use crate::render_graph::frame_laws::{
    law_a_reader_has_its_writer, law_what_feeds_a_needed_pass_survives,
    law_writers_of_results_survive, names,
};
use crate::render_graph::graph::{AnyRenderPass, RenderGraph};
use crate::render_graph::internal_passes::{
    needed_passes, registered_ids, results_of, write_lists,
};
use crate::render_graph::liveness::{
    is_live, lemma_root_is_live, produces_for, roots_of, writes_any,
};
use crate::render_graph::pass_builder::RenderJob;
use crate::render_graph::pipeline_cache::{
    compute_key, raytracing_key, CachedPipeline, PipelineCache, PipelineHandle,
};
use crate::render_graph::resource::GraphResourceImportInfo;

verus! {

// ---------------------------------------------------------------------------
// Pipelines
// ---------------------------------------------------------------------------

proof fn lemma_first_with_key(known: Map<u64, PipelineHandle>, ds: Seq<Declared>, i: int) -> (k: int)
    requires
        0 <= i < ds.len(),
        !known.contains_key(ds[i].key),
        forall|j: int| 0 <= j < i ==> (#[trigger] ds[j]).key != ds[i].key,
    ensures
        0 <= k < fresh_passes(known, ds).len(),
        fresh_passes(known, ds)[k] == ds[i],
    decreases ds.len(),
{
    let few = ds.drop_last();
    let rest = fresh_passes(known, few);
    if i == ds.len() - 1 {
        assert(!has_key(few, ds[i].key)) by {
            if has_key(few, ds[i].key) {
                let j = choose|j: int| 0 <= j < few.len() && (#[trigger] few[j]).key == ds[i].key;
                assert(ds[j].key == ds[i].key);
            }
        }
        rest.len() as int
    } else {
        assert forall|j: int| 0 <= j < i implies (#[trigger] few[j]).key != few[i].key by {
            assert(ds[j].key != ds[i].key);
        }
        lemma_first_with_key(known, few, i)
    }
}

/// The first of the passes that has a new key runs a pipeline that was built for its own
/// role, and every later pass with that key runs the same one.
pub proof fn law_each_pass_runs_its_own_pipeline<B: Fn(ShaderRole) -> SrResult<CachedPipeline>>(
    before: PipelineCache,
    after: PipelineCache,
    ds: Seq<Declared>,
    build: B,
    i: int,
)
    requires
        all_interned(before, after, ds, build),
        after.entries@.len() <= u32::MAX,
        0 <= i < ds.len(),
        !before.by_key@.contains_key(ds[i].key),
        forall|j: int| 0 <= j < i ==> (#[trigger] ds[j]).key != ds[i].key,
    ensures
        after.by_key@.contains_key(ds[i].key),
        before.entries@.len() <= after.by_key@[ds[i].key].0 < after.entries@.len(),
        build.ensures((ds[i].role,), Ok(after.entries@[after.by_key@[ds[i].key].0 as int])),
{
    let k = lemma_first_with_key(before.by_key@, ds, i);
    let fresh = fresh_passes(before.by_key@, ds);
    assert(built_for(after, fresh[k], before.entries@.len() + k, build));
}

/// Passes whose keys are all known build nothing, and change nothing among the pipelines.
pub proof fn law_known_pipelines_are_reused<B: Fn(ShaderRole) -> SrResult<CachedPipeline>>(
    before: PipelineCache,
    after: PipelineCache,
    ds: Seq<Declared>,
    build: B,
)
    requires
        all_interned(before, after, ds, build),
        forall|i: int| 0 <= i < ds.len() ==> before.by_key@.contains_key((#[trigger] ds[i]).key),
    ensures
        after.entries@ == before.entries@,
        after.by_key@ == before.by_key@,
{
    let fresh = fresh_passes(before.by_key@, ds);
    law_pipelines_are_built_once(before.by_key@, ds);
    assert(fresh.len() == 0) by {
        if fresh.len() > 0 {
            let d = fresh[0];
            let j = choose|j: int| 0 <= j < ds.len() && (#[trigger] ds[j]).key == d.key;
            assert(before.by_key@.contains_key(ds[j].key));
        }
    }
    assert(after.entries@.take(before.entries@.len() as int) =~= after.entries@);
    assert forall|key: u64| #[trigger]
        after.by_key@.contains_key(key) <==> before.by_key@.contains_key(key) by {
        if has_key(ds, key) {
            let j = choose|j: int| 0 <= j < ds.len() && (#[trigger] ds[j]).key == key;
            assert(before.by_key@.contains_key(ds[j].key));
        }
    }
    assert(after.by_key@ =~= before.by_key@);
}

// ---------------------------------------------------------------------------
// Culling
// ---------------------------------------------------------------------------

proof fn lemma_registered(registered: Seq<(usize, usize, u32)>, n: nat, k: int)
    requires
        0 <= k < n <= registered.len(),
    ensures
        registered_ids(registered, n).contains(registered[k].2),
    decreases n,
{
    if k < n - 1 {
        lemma_registered(registered, (n - 1) as nat, k);
    }
}

/// Where a pass of a frame writes a copy of what lives across frames.
spec fn temporal_write(i: int) -> int {
    if i == 0 {
        5
    } else {
        0
    }
}

/// Every pass but the one that shades and the last writes a copy of what lives across
/// frames.
proof fn lemma_temporal_write(
    registered: Seq<(usize, usize, u32)>,
    base: int,
    arenas: Seq<u32>,
    tlas: u32,
    frame_count: int,
    extent: (u32, u32, u32),
    shaders: ShaderCode,
    temporal: TemporalTokens,
    before: Seq<(usize, usize, u32)>,
    i: int,
)
    requires
        0 <= base,
        base + FRAME_RESOURCES <= u32::MAX,
        registered == before + registrations(base, temporal),
        0 <= i < FRAME_PASSES - 1,
        i != 1,
        0 <= frame_count,
    ensures
        ({
            let d = frame_passes(base, arenas, tlas, frame_count, extent, shaders)[i];
            &&& temporal_write(i) < d.writes.len()
            &&& registered_ids(registered, registered.len()).contains(
                d.writes[temporal_write(i)].id,
            )
        }),
{
    let d = frame_passes(base, arenas, tlas, frame_count, extent, shaders)[i];
    let id = d.writes[temporal_write(i)].id;
    let k: int = if i == 0 {
        4
    } else if i == 2 {
        accum_target(frame_count)
    } else {
        2 + (i - 3) % 2
    };
    let at = before.len() + k;
    if i == 0 {
        assert(id == base + 10);
    } else if i == 2 {
        assert(id == base + 5 + accum_target(frame_count));
    } else {
        assert(id == denoise_output(i - 3, ((base + 7) as u32, (base + 8) as u32)));
        assert(id == base + 7 + (i - 3) % 2);
    }
    assert(registered[at] == registrations(base, temporal)[k]);
    assert(registered[at].2 == id);
    lemma_registered(registered, registered.len(), at);
}

/// Compiling keeps every pass of a frame that was declared: the one that writes the image
/// that is shown, and all that it and the next frames need.
pub proof fn law_no_pass_of_a_frame_is_dropped<B: Fn(ShaderRole) -> SrResult<CachedPipeline>>(
    before: RenderGraph,
    after: RenderGraph,
    frame: usize,
    frame_count: u32,
    shaders: ShaderCode,
    temporal: TemporalTokens,
    extent: (u32, u32, u32),
    shown: GraphResourceImportInfo,
    arenas: Seq<u32>,
    tlas: u32,
    build: B,
    passes: Seq<AnyRenderPass>,
    i: int,
)
    requires
        before.next_resource_id + FRAME_RESOURCES <= u32::MAX,
        after.internal_count() + after.passes@.len() <= usize::MAX,
        frame_declared(
            before,
            after,
            frame,
            frame_count,
            shaders,
            temporal,
            extent,
            shown,
            arenas,
            tlas,
            build,
        ),
        survivors(after, passes),
        0 <= i < FRAME_PASSES,
    ensures
        passes.contains(after.passes@[before.passes@.len() + i]),
        names(
            after.passes@[before.passes@.len() + FRAME_PASSES - 1].data().write@,
            (before.next_resource_id + 9) as u32,
        ),
{
    let base = before.next_resource_id as int;
    let first = before.passes@.len() as int;
    let ds = frame_passes(base, arenas, tlas, frame_count as int, extent, shaders);
    let n = after.internal_count();
    let marked = after.output_resources@;
    let ids = after.temporal_ids();
    let (all, producers) = choose|all: Seq<AnyRenderPass>, producers: Seq<Vec<usize>>|
        {
            &&& #[trigger] after.with_internal(all)
            &&& #[trigger] producers_match(
                producers,
                touches(declared(all), all.len()),
                all.len() as int,
            )
            &&& passes == needed_passes(all, marked, ids, producers, n)
        };
    assert forall|j: int| 0 <= j < FRAME_PASSES implies #[trigger] all[n + first + j]
        == after.passes@[first + j] && all[n + first + j].data().write@ == ds[j].writes && all[n
        + first + j].data().read@ == ds[j].reads by {
        assert(all.skip(n)[first + j] == after.passes@[first + j]);
        assert(pass_stands(
            after,
            first + j,
            (before.next_pass_id + j) as u32,
            frame,
            ds[j],
        ));
    }
    let last = FRAME_PASSES - 1;
    assert(all[n + first + last].data().write@ == ds[last].writes);
    assert(ds[last].writes[0].id == base + 9);
    if i == 1 {
        let q = n + first + 2;
        let p = n + first + 1;
        assert(all[n + first + 1].data().write@ == ds[1].writes);
        assert(all[n + first + 2].data().read@ == ds[2].reads);
        assert(ds[1].writes[0].id == base as u32);
        assert(ds[2].reads[0].id == base as u32);
        let decls = declared(all);
        assert(decls[p].1@ == ds[1].writes);
        assert(decls[p + 1].0@ == ds[2].reads);
        law_a_reader_has_its_writer(decls, p, base as u32);
        assert(producers[q]@ == producers_of(touches(decls, all.len()), q));
        assert(produces_for(producers, p, q));
        let roots = roots_of(write_lists(all), results_of(all, marked), ids, n);
        lemma_temporal_write(
            after.registered_temporal@,
            base,
            arenas,
            tlas,
            frame_count as int,
            extent,
            shaders,
            temporal,
            before.registered_temporal@,
            2,
        );
        let w = temporal_write(2);
        assert(all[n + first + 2].data().write@ == ds[2].writes);
        assert(write_lists(all)[q]@[w] == ds[2].writes[w]);
        assert(writes_any(write_lists(all)[q]@, ids));
        assert(roots(q));
        lemma_root_is_live(producers, roots, q);
        law_what_feeds_a_needed_pass_survives(all, marked, ids, producers, n, p, q);
    } else {
        let id = if i == last {
            (base + 9) as u32
        } else {
            lemma_temporal_write(
                after.registered_temporal@,
                base,
                arenas,
                tlas,
                frame_count as int,
                extent,
                shaders,
                temporal,
                before.registered_temporal@,
                i,
            );
            ds[i].writes[temporal_write(i)].id
        };
        assert(all[n + first + i].data().write@ == ds[i].writes);
        assert(names(all[n + first + i].data().write@, id));
        law_writers_of_results_survive(all, marked, ids, producers, n, n + first + i, id);
    }
}

// ---------------------------------------------------------------------------
// What each pass does
// ---------------------------------------------------------------------------

/// Whether workgroups of sixteen cover a length, and no group is in vain.
pub open spec fn covers(groups: u32, length: u32) -> bool {
    groups * 16 >= length && (groups - 1) * 16 < length
}

/// Every pass of a frame covers the whole image: those that trace rays trace one for each
/// pixel, and the groups of the others reach every pixel, in both directions, with none to
/// spare. Each finds its push data at its own place.
pub proof fn law_every_pass_covers_the_image<B: Fn(ShaderRole) -> SrResult<CachedPipeline>>(
    before: RenderGraph,
    after: RenderGraph,
    frame: usize,
    frame_count: u32,
    shaders: ShaderCode,
    temporal: TemporalTokens,
    extent: (u32, u32, u32),
    shown: GraphResourceImportInfo,
    arenas: Seq<u32>,
    tlas: u32,
    build: B,
    i: int,
)
    requires
        frame_declared(
            before,
            after,
            frame,
            frame_count,
            shaders,
            temporal,
            extent,
            shown,
            arenas,
            tlas,
            build,
        ),
        0 <= i < 12,
    ensures
        after.passes@.len() == before.passes@.len() + 12,
        ({
            let pass = after.passes@[before.passes@.len() + i];
            if i < 2 {
                &&& pass is Rt
                &&& pass.data().render matches Some(RenderJob::TraceRays { extent: e, push, .. })
                    && e == extent && push == i
            } else {
                &&& pass is Compute
                &&& pass.data().render matches Some(RenderJob::Dispatch { groups, push, .. })
                    && covers(groups.0, extent.0) && covers(groups.1, extent.1) && groups.2 == 1
                    && push == i
            }
        }),
{
    let ds = frame_passes(
        before.next_resource_id as int,
        arenas,
        tlas,
        frame_count as int,
        extent,
        shaders,
    );
    assert(ds.len() == 12);
    assert(pass_stands(
        after,
        before.passes@.len() + i,
        (before.next_pass_id + i) as u32,
        frame,
        ds[i],
    ));
    lemma_groups_cover(extent.0);
    lemma_groups_cover(extent.1);
}

proof fn lemma_groups_cover(length: u32)
    ensures
        covers(groups_over(length), length),
{
    let g = (length + 15) / 16;
    assert(g * 16 >= length && (g - 1) * 16 < length && 0 <= g <= u32::MAX);
}

/// Whether an access is one that a compute shader makes without writing.
pub open spec fn is_compute_read(access: AccessType) -> bool {
    access == AccessType::ComputeShaderReadOther || access
        == AccessType::ComputeShaderReadSampledImageOrUniformTexelBuffer
}

/// Whether an access is one that a ray-tracing shader makes without writing.
pub open spec fn is_ray_read(access: AccessType) -> bool {
    access == AccessType::RayTracingShaderReadOther || access
        == AccessType::RayTracingShaderReadAccelerationStructure
}

/// Passes declare what their shaders do: compute passes read and write as compute shaders,
/// ray-tracing passes read as ray-tracing shaders and write in a way that covers any of
/// them. What is read is not declared as a write, nor the other way round. Only the scene is
/// read as an acceleration structure.
pub proof fn law_passes_declare_what_their_shaders_do(
    base: int,
    arenas: Seq<u32>,
    tlas: u32,
    frame_count: nat,
    extent: (u32, u32, u32),
    shaders: ShaderCode,
    i: int,
    k: int,
)
    requires
        0 <= base <= u32::MAX - FRAME_RESOURCES,
        0 <= i < 12,
    ensures
        ({
            let d = frame_passes(base, arenas, tlas, frame_count as int, extent, shaders)[i];
            &&& 0 <= k < d.reads.len() ==> {
                let access = d.reads[k].access.access_type;
                &&& if i < 2 {
                    is_ray_read(access)
                } else {
                    is_compute_read(access)
                }
                &&& access == AccessType::RayTracingShaderReadAccelerationStructure
                    ==> d.reads[k].id == tlas
                &&& !opens_write_epoch(access)
            }
            &&& 0 <= k < d.writes.len() ==> {
                let access = d.writes[k].access.access_type;
                &&& if i < 2 {
                    access == AccessType::General || access == AccessType::AnyShaderWrite
                } else {
                    access == AccessType::ComputeShaderWrite
                }
                &&& opens_write_epoch(access)
            }
        }),
{
    let d = frame_passes(base, arenas, tlas, frame_count as int, extent, shaders)[i];
    if i < 2 {
        let id = |i: int| (base + i) as u32;
        let rays = RayIds {
            images: seq![id(0), id(1), id(2), id(3), id(4)],
            reservoirs: seq![id(10), id(11), id(12), id(13)],
            arenas,
            tlas,
        };
        assert(d == if i == 0 {
            ris_pass(rays, extent, shaders.ris_key(), 0)
        } else {
            final_pass(rays, extent, shaders.final_key(), 1)
        });
        if 0 <= k < d.reads.len() {
            assert(is_ray_read(d.reads[k].access.access_type));
        }
    }
}

/// Whether a pass declares exactly these resources, in any order.
pub open spec fn touches_exactly(refs: Seq<ResourceRef>, ids: Set<u32>) -> bool {
    &&& forall|k: int| 0 <= k < refs.len() ==> ids.contains((#[trigger] refs[k]).id)
    &&& forall|id: u32| #[trigger] ids.contains(id) ==> names(refs, id)
}

/// The images and buffers of a frame flow from pass to pass. Both ray-tracing passes read
/// the scene and the arenas and write the five images of the frame; the first fills the
/// four reservoirs, which the second reads. Accumulation reads color, motion and the image
/// that the last frame accumulated, and writes this frame's. The first filter reads that
/// and the surfaces. The last pass reads what the last filter wrote, and writes what is
/// shown, and no other pass touches that.
pub proof fn law_the_frame_flows(
    base: int,
    arenas: Seq<u32>,
    tlas: u32,
    frame_count: nat,
    extent: (u32, u32, u32),
    shaders: ShaderCode,
)
    requires
        0 <= base <= u32::MAX - FRAME_RESOURCES,
        arenas.len() == 2,
        tlas < base,
        arenas[0] < base,
        arenas[1] < base,
    ensures
        ({
            let ds = frame_passes(base, arenas, tlas, frame_count as int, extent, shaders);
            let id = |i: int| (base + i) as u32;
            let made = set![id(0), id(1), id(2), id(3), id(4)];
            let reservoirs = set![id(10), id(11), id(12), id(13)];
            let now = id(5 + frame_count as int % 2);
            let last = id(5 + (frame_count as int + 1) % 2);
            &&& touches_exactly(ds[0].reads, set![tlas, arenas[0], arenas[1]])
            &&& touches_exactly(ds[0].writes, made.union(reservoirs))
            &&& touches_exactly(ds[1].reads, set![tlas, arenas[0], arenas[1]].union(reservoirs))
            &&& touches_exactly(ds[1].writes, made)
            &&& touches_exactly(ds[2].reads, set![id(0), id(4), last])
            &&& touches_exactly(ds[2].writes, set![now])
            &&& touches_exactly(ds[3].reads, set![now, id(1), id(2), id(3)])
            &&& touches_exactly(ds[3].writes, set![id(7)])
            &&& forall|i: int|
                4 <= i < 11 ==> touches_exactly(
                    (#[trigger] ds[i]).reads,
                    set![id(7 + i % 2)],
                ) && touches_exactly(ds[i].writes, set![id(7 + (i + 1) % 2)])
            &&& touches_exactly(ds[11].reads, set![id(8)])
            &&& touches_exactly(ds[11].writes, set![id(9)])
        }),
{
    let ds = frame_passes(base, arenas, tlas, frame_count as int, extent, shaders);
    let id = |i: int| (base + i) as u32;
    let rays = RayIds {
        images: seq![id(0), id(1), id(2), id(3), id(4)],
        reservoirs: seq![id(10), id(11), id(12), id(13)],
        arenas,
        tlas,
    };
    assert(ds[0] == ris_pass(rays, extent, shaders.ris_key(), 0));
    assert(ds[1] == final_pass(rays, extent, shaders.final_key(), 1));
    let w = ds[0].writes;
    assert(w[0].id == id(0) && w[1].id == id(1) && w[2].id == id(2) && w[3].id == id(3) && w[4].id
        == id(4) && w[5].id == id(10) && w[6].id == id(11) && w[7].id == id(12) && w[8].id == id(13));
    let x = ds[1].writes;
    assert(x[0].id == id(0) && x[1].id == id(1) && x[2].id == id(2) && x[3].id == id(3) && x[4].id
        == id(4));
    let r = ds[0].reads;
    assert(r[0].id == tlas && r[1].id == arenas[0] && r[2].id == arenas[1]);
    let s = ds[1].reads;
    assert(s[0].id == tlas && s[1].id == id(10) && s[2].id == id(11) && s[3].id == id(12) && s[4].id
        == id(13) && s[5].id == arenas[0] && s[6].id == arenas[1]);
    let t = ds[2].reads;
    assert(t[0].id == id(0) && t[1].id == id(4) && t[2].id == id(5 + (frame_count as int + 1) % 2));
    assert(ds[2].writes[0].id == id(5 + frame_count as int % 2));
    let f = ds[3].reads;
    assert(f[0].id == id(5 + frame_count as int % 2) && f[1].id == id(1) && f[2].id == id(2)
        && f[3].id == id(3));
    assert(ds[3].writes[0].id == id(7));
    assert forall|i: int| 4 <= i < 11 implies touches_exactly(
        (#[trigger] ds[i]).reads,
        set![id(7 + i % 2)],
    ) && touches_exactly(ds[i].writes, set![id(7 + (i + 1) % 2)]) by {
        assert(ds[i].reads[0].id == id(7 + i % 2));
        assert(ds[i].writes[0].id == id(7 + (i + 1) % 2));
    }
    assert(ds[11].reads[0].id == id(8));
    assert(ds[11].writes[0].id == id(9));
}

/// Each pass runs the shaders that were compiled for it: the two that trace rays differ in
/// their first stage alone, the filters share one, and the others have their own.
pub proof fn law_passes_run_their_shaders(
    base: int,
    arenas: Seq<u32>,
    tlas: u32,
    frame_count: nat,
    extent: (u32, u32, u32),
    shaders: ShaderCode,
    i: int,
)
    requires
        0 <= i < 12,
    ensures
        ({
            let d = frame_passes(base, arenas, tlas, frame_count as int, extent, shaders)[i];
            let rays = |first: Seq<u8>|
                raytracing_key(first, shaders.ray_miss@, shaders.closest_hit@, shaders.any_hit@);
            &&& i == 0 ==> d.role == ShaderRole::RaytracingRis && d.key == rays(
                shaders.ray_gen_ris@,
            )
            &&& i == 1 ==> d.role == ShaderRole::RaytracingFinal && d.key == rays(
                shaders.ray_gen_final@,
            )
            &&& i == 2 ==> d.role == ShaderRole::TemporalAccumulation && d.key == compute_key(
                shaders.temporal_accumulation@,
            )
            &&& 3 <= i < 11 ==> d.role == ShaderRole::Denoise && d.key == compute_key(
                shaders.denoise@,
            )
            &&& i == 11 ==> d.role == ShaderRole::Postprocess && d.key == compute_key(
                shaders.postprocess@,
            )
        }),
{
}

/// The push data of a pass names the resources that the pass declares: what it says is read
/// is declared as read, what it says is written as written. Filters look twice as far as the
/// filter before them, the first at its neighbours. Sizes are the image's.
pub proof fn law_push_data_agrees_with_the_passes(
    base: int,
    arenas: Seq<u32>,
    tlas: u32,
    frame_count: u32,
    extent: (u32, u32, u32),
    image_format: i32,
    shaders: ShaderCode,
    i: int,
)
    requires
        0 <= base <= u32::MAX - FRAME_RESOURCES,
        0 <= i < 12,
    ensures
        ({
            let d = frame_passes(base, arenas, tlas, frame_count as int, extent, shaders)[i];
            let first = frame_passes(base, arenas, tlas, frame_count as int, extent, shaders)[3];
            let pushes = frame_pushes(base, frame_count, extent, image_format);
            &&& pushes.len() == 12
            &&& match pushes[i] {
                PushData::Raytracing {
                    raw_color,
                    depth,
                    normal,
                    diffuse,
                    motion,
                    frame_count: count,
                    use_srgb,
                } => {
                    &&& i < 2
                    &&& names(d.writes, raw_color) && names(d.writes, depth) && names(
                        d.writes,
                        normal,
                    ) && names(d.writes, diffuse) && names(d.writes, motion)
                    &&& raw_color != depth && raw_color != normal && raw_color != diffuse
                        && raw_color != motion && depth != normal && depth != diffuse && depth
                        != motion && normal != diffuse && normal != motion && diffuse != motion
                    &&& count == frame_count
                    &&& use_srgb <==> image_format == 43
                },
                PushData::TemporalAccumulation {
                    raw_color,
                    motion,
                    history,
                    accum_output,
                    frame_count: count,
                    width,
                    height,
                } => {
                    &&& i == 2
                    &&& names(d.reads, raw_color) && names(d.reads, motion) && names(
                        d.reads,
                        history,
                    ) && names(d.writes, accum_output)
                    &&& pushes[0] matches PushData::Raytracing { raw_color: c, motion: m, .. } && c
                        == raw_color && m == motion
                    &&& count == frame_count && width == extent.0 && height == extent.1
                },
                PushData::Denoise {
                    temporal_result,
                    depth,
                    normal,
                    diffuse,
                    spatial_output,
                    frame_count: count,
                    step_width: step,
                    width,
                    height,
                } => {
                    &&& 3 <= i < 11
                    &&& names(d.reads, temporal_result) && names(d.writes, spatial_output)
                    &&& temporal_result != depth && temporal_result != normal && temporal_result
                        != diffuse
                    &&& names(first.reads, depth) && names(first.reads, normal) && names(
                        first.reads,
                        diffuse,
                    )
                    &&& pushes[0] matches PushData::Raytracing {
                        depth: z,
                        normal: n,
                        diffuse: a,
                        ..
                    } && z == depth && n == normal && a == diffuse
                    &&& count == frame_count && width == extent.0 && height == extent.1
                    &&& i == 3 ==> step == 1
                    &&& i > 3 ==> (pushes[i - 1] matches PushData::Denoise { step_width: before, .. }
                        && step == 2 * before)
                },
                PushData::Postprocess { input, output } => {
                    i == 11 && names(d.reads, input) && names(d.writes, output)
                },
            }
        }),
{
    let d = frame_passes(base, arenas, tlas, frame_count as int, extent, shaders)[i];
    let first = frame_passes(base, arenas, tlas, frame_count as int, extent, shaders)[3];
    let pushes = frame_pushes(base, frame_count, extent, image_format);
    vstd::arithmetic::power2::lemma2_to64();
    let id = |i: int| (base + i) as u32;
    if i < 2 {
        assert(d.writes[0].id == id(0) && d.writes[1].id == id(1) && d.writes[2].id == id(2)
            && d.writes[3].id == id(3) && d.writes[4].id == id(4));
    } else if i == 2 {
        assert(d.reads[0].id == id(0) && d.reads[1].id == id(4));
        assert(d.reads[2].id == id(5 + (frame_count as int + 1) % 2));
        assert(d.writes[0].id == id(5 + frame_count as int % 2));
    } else if i < 11 {
        assert(first.reads[1].id == id(1) && first.reads[2].id == id(2) && first.reads[3].id
            == id(3));
        let j = i - 3;
        assert(d.reads[0].id == denoise_input(j, id(5 + frame_count as int % 2), (id(7), id(8))));
        assert(d.writes[0].id == denoise_output(j, (id(7), id(8))));
    } else {
        assert(d.reads[0].id == denoise_output(7, (id(7), id(8))));
        assert(d.writes[0].id == id(9));
    }
}

/// The images that a frame makes have its extent, in device memory; shaders may write each,
/// and those that filters look at may be sampled too.
pub proof fn law_frame_images_fit_their_use(extent: (u32, u32, u32), i: int)
    requires
        0 <= i < 5,
    ensures
        frame_images(extent).len() == 5,
        ({
            let d = frame_images(extent)[i];
            &&& d.extent == extent
            &&& d.location == MemoryLocation::GpuOnly
            &&& d.tiling == 0
            &&& d.usage & 8u32 == 8u32
            &&& 1 <= i <= 3 ==> d.usage & 4u32 == 4u32
        }),
{
    assert(8u32 & 8u32 == 8u32) by (bit_vector);
    assert((8u32 | 4u32) & 8u32 == 8u32) by (bit_vector);
    assert((8u32 | 4u32) & 4u32 == 4u32) by (bit_vector);
}

} // verus!
