//! What each pass of a frame declares and does, whatever it is given.

use vk_sync_fork::AccessType;
use vstd::prelude::*;

use crate::error::SrResult;
use crate::path_tracer::{
    add_denoise_passes, add_postprocess_pass, add_raytracing_final_pass, add_raytracing_ris_pass,
    add_temporal_pass, cache_of, denoise_passes, pass_stands, FrameBuffers, FrameImages, RayCode,
    ShaderRole,
};
use crate::path_tracer_laws::covers;
use crate::render_graph::access::{opens_write_epoch, ResourceRef};
use crate::render_graph::frame_barrier_laws::declared_well;
use crate::render_graph::frame_laws::names;
use crate::render_graph::graph::{AnyRenderPass, RenderGraph};
use crate::render_graph::pass_builder::RenderJob;
use crate::render_graph::pipeline_cache::{compute_key, raytracing_key, CachedPipeline};
use crate::render_graph::resource::{Handle, Image};

verus! {

/// Whether declarations name these resources and no others.
pub open spec fn names_exactly(refs: Seq<ResourceRef>, ids: Seq<u32>) -> bool {
    forall|id: u32| #[trigger] names(refs, id) <==> ids.contains(id)
}

proof fn lemma_names_exactly(refs: Seq<ResourceRef>, ids: Seq<u32>)
    requires
        refs.len() == ids.len(),
        forall|k: int| 0 <= k < refs.len() ==> (#[trigger] refs[k]).id == ids[k],
    ensures
        names_exactly(refs, ids),
{
    assert forall|id: u32| #[trigger] names(refs, id) <==> ids.contains(id) by {
        if names(refs, id) {
            let k = choose|k: int| 0 <= k < refs.len() && (#[trigger] refs[k]).id == id;
            assert(ids[k] == id);
        }
        if ids.contains(id) {
            let k = choose|k: int| 0 <= k < ids.len() && ids[k] == id;
            assert(refs[k].id == id);
        }
    }
}

/// Whether a graph is another with one more pass behind its own.
pub open spec fn adds_one_pass(before: RenderGraph, after: RenderGraph) -> bool {
    &&& after.passes@.len() == before.passes@.len() + 1
    &&& forall|i: int|
        0 <= i < before.passes@.len() ==> #[trigger] after.passes@[i] == before.passes@[i]
    &&& after.next_pass_id == before.next_pass_id + 1
    &&& after.passes@.last().data().id == before.next_pass_id
    &&& after.virtual_resources == before.virtual_resources
    &&& after.temporal_resources == before.temporal_resources
    &&& after.output_resources == before.output_resources
}

/// Whether a pass traces over an extent, with the pipeline of these stages.
pub open spec fn traces(
    rg: RenderGraph,
    frame: usize,
    pass: AnyRenderPass,
    code: RayCode<'_>,
    extent: (u32, u32, u32),
    push: u64,
) -> bool {
    let key = raytracing_key(code.ray_gen@, code.miss@, code.closest_hit@, code.any_hit@);
    let cache = rg.pipeline_caches@[frame as int % 2];
    &&& pass is Rt
    &&& cache.by_key@.contains_key(key)
    &&& pass.data().render == Some(
        RenderJob::TraceRays { pipeline: cache.by_key@[key], extent, push },
    )
}

/// Whether a pass covers an image with workgroups of the pipeline of this code.
pub open spec fn computes(
    rg: RenderGraph,
    frame: usize,
    pass: AnyRenderPass,
    spirv: Seq<u8>,
    width: u32,
    height: u32,
    push: u64,
) -> bool {
    let key = compute_key(spirv);
    let cache = rg.pipeline_caches@[frame as int % 2];
    &&& pass is Compute
    &&& cache.by_key@.contains_key(key)
    &&& pass.data().render matches Some(RenderJob::Dispatch { pipeline, groups, push: found })
        && pipeline == cache.by_key@[key] && found == push && covers(groups.0, width) && covers(
        groups.1,
        height,
    ) && groups.2 == 1
}

proof fn lemma_earlier_kept(before: RenderGraph, after: RenderGraph)
    requires
        after.passes@.len() == before.passes@.len() + 1,
        after.passes@.drop_last() == before.passes@,
    ensures
        forall|i: int|
            0 <= i < before.passes@.len() ==> #[trigger] after.passes@[i] == before.passes@[i],
{
    assert forall|i: int| 0 <= i < before.passes@.len() implies #[trigger] after.passes@[i]
        == before.passes@[i] by {
        assert(after.passes@.drop_last()[i] == after.passes@[i]);
    }
}

/// Both ray-tracing passes read the scene and its arenas and write the five images. The
/// first also fills the reservoirs, which the second reads. Each traces over the extent with
/// its own stages.
pub proof fn law_tracing_passes_declare_what_they_touch<
    B: Fn(ShaderRole) -> SrResult<CachedPipeline>,
>(
    ris: &mut RenderGraph,
    shading: &mut RenderGraph,
    frame: usize,
    code: RayCode<'_>,
    images: FrameImages,
    buffers: FrameBuffers,
    extent: (u32, u32, u32),
    push: u64,
    build: B,
)
    requires
        old(ris).slots_wf(),
        old(shading).slots_wf(),
        old(ris).next_pass_id < u32::MAX,
        old(shading).next_pass_id < u32::MAX,
        call_ensures(
            add_raytracing_ris_pass::<B>,
            (ris, frame, &code, &images, &buffers, extent, push, &build),
            Ok(()),
        ),
        call_ensures(
            add_raytracing_final_pass::<B>,
            (shading, frame, &code, &images, &buffers, extent, push, &build),
            Ok(()),
        ),
    ensures
        adds_one_pass(*old(ris), *final(ris)),
        adds_one_pass(*old(shading), *final(shading)),
        traces(*final(ris), frame, final(ris).passes@.last(), code, extent, push),
        traces(*final(shading), frame, final(shading).passes@.last(), code, extent, push),
        declared_well(final(ris).passes@.last()),
        declared_well(final(shading).passes@.last()),
        names_exactly(
            final(ris).passes@.last().data().write@,
            seq![
                images.raw_color.id,
                images.depth.id,
                images.normal.id,
                images.diffuse.id,
                images.motion.id,
                buffers.reservoirs@[0].id,
                buffers.reservoirs@[1].id,
                buffers.reservoirs_gi@[0].id,
                buffers.reservoirs_gi@[1].id,
            ],
        ),
        names_exactly(
            final(ris).passes@.last().data().read@,
            seq![buffers.tlas.id, buffers.arenas@[0].id, buffers.arenas@[1].id],
        ),
        names_exactly(
            final(shading).passes@.last().data().write@,
            seq![
                images.raw_color.id,
                images.depth.id,
                images.normal.id,
                images.diffuse.id,
                images.motion.id,
            ],
        ),
        names_exactly(
            final(shading).passes@.last().data().read@,
            seq![
                buffers.tlas.id,
                buffers.reservoirs@[0].id,
                buffers.reservoirs@[1].id,
                buffers.reservoirs_gi@[0].id,
                buffers.reservoirs_gi@[1].id,
                buffers.arenas@[0].id,
                buffers.arenas@[1].id,
            ],
        ),
{
    lemma_earlier_kept(*old(ris), *final(ris));
    lemma_earlier_kept(*old(shading), *final(shading));
    lemma_names_exactly(
        final(ris).passes@.last().data().write@,
        seq![
            images.raw_color.id,
            images.depth.id,
            images.normal.id,
            images.diffuse.id,
            images.motion.id,
            buffers.reservoirs@[0].id,
            buffers.reservoirs@[1].id,
            buffers.reservoirs_gi@[0].id,
            buffers.reservoirs_gi@[1].id,
        ],
    );
    lemma_names_exactly(
        final(ris).passes@.last().data().read@,
        seq![buffers.tlas.id, buffers.arenas@[0].id, buffers.arenas@[1].id],
    );
    lemma_names_exactly(
        final(shading).passes@.last().data().write@,
        seq![
            images.raw_color.id,
            images.depth.id,
            images.normal.id,
            images.diffuse.id,
            images.motion.id,
        ],
    );
    lemma_names_exactly(
        final(shading).passes@.last().data().read@,
        seq![
            buffers.tlas.id,
            buffers.reservoirs@[0].id,
            buffers.reservoirs@[1].id,
            buffers.reservoirs_gi@[0].id,
            buffers.reservoirs_gi@[1].id,
            buffers.arenas@[0].id,
            buffers.arenas@[1].id,
        ],
    );
}

/// The pass that blends reads the frame's color, its motion and the history, and writes the
/// target; the last pass reads what was filtered and writes what is shown. Both cover the
/// image.
pub proof fn law_compute_passes_declare_what_they_touch<
    B: Fn(ShaderRole) -> SrResult<CachedPipeline>,
>(
    blending: &mut RenderGraph,
    showing: &mut RenderGraph,
    frame: usize,
    spirv: Vec<u8>,
    raw_color: Handle<Image>,
    motion: Handle<Image>,
    history: Handle<Image>,
    target: Handle<Image>,
    filtered: Handle<Image>,
    shown: Handle<Image>,
    width: u32,
    height: u32,
    push: u64,
    build: B,
)
    requires
        old(blending).slots_wf(),
        old(showing).slots_wf(),
        old(blending).next_pass_id < u32::MAX,
        old(showing).next_pass_id < u32::MAX,
        call_ensures(
            add_temporal_pass::<B>,
            (
                blending,
                frame,
                &spirv,
                &raw_color,
                &motion,
                &history,
                &target,
                width,
                height,
                push,
                &build,
            ),
            Ok(()),
        ),
        call_ensures(
            add_postprocess_pass::<B>,
            (showing, frame, &spirv, &filtered, &shown, width, height, push, &build),
            Ok(()),
        ),
    ensures
        adds_one_pass(*old(blending), *final(blending)),
        adds_one_pass(*old(showing), *final(showing)),
        computes(*final(blending), frame, final(blending).passes@.last(), spirv@, width, height, push),
        computes(*final(showing), frame, final(showing).passes@.last(), spirv@, width, height, push),
        declared_well(final(blending).passes@.last()),
        declared_well(final(showing).passes@.last()),
        names_exactly(
            final(blending).passes@.last().data().read@,
            seq![raw_color.id, motion.id, history.id],
        ),
        names_exactly(final(blending).passes@.last().data().write@, seq![target.id]),
        names_exactly(final(showing).passes@.last().data().read@, seq![filtered.id]),
        names_exactly(final(showing).passes@.last().data().write@, seq![shown.id]),
{
    lemma_earlier_kept(*old(blending), *final(blending));
    lemma_earlier_kept(*old(showing), *final(showing));
    lemma_names_exactly(
        final(blending).passes@.last().data().read@,
        seq![raw_color.id, motion.id, history.id],
    );
    lemma_names_exactly(final(blending).passes@.last().data().write@, seq![target.id]);
    lemma_names_exactly(final(showing).passes@.last().data().read@, seq![filtered.id]);
    lemma_names_exactly(final(showing).passes@.last().data().write@, seq![shown.id]);
}

/// Filter passes hand the image on: the first reads what was accumulated, each further one
/// what the one before it wrote, and they write the two images in turn, so that none reads
/// what it writes. All cover the image, with one pipeline. There are eight of them.
pub proof fn law_filter_passes_hand_the_image_on<
    B: Fn(ShaderRole) -> SrResult<CachedPipeline>,
>(
    rg: &mut RenderGraph,
    frame: usize,
    spirv: Vec<u8>,
    accumulated: Handle<Image>,
    images: FrameImages,
    pair: [Handle<Image>; 2],
    width: u32,
    height: u32,
    push: u64,
    build: B,
    i: int,
)
    requires
        old(rg).slots_wf(),
        old(rg).next_pass_id + 8 <= u32::MAX,
        push + 8 <= u64::MAX,
        call_ensures(
            add_denoise_passes::<B>,
            (
                rg,
                frame,
                &spirv,
                &accumulated,
                &images,
                &pair,
                width,
                height,
                push,
                &build,
            ),
            Ok(()),
        ),
        0 <= i < 7,
    ensures
        ({
            let n = old(rg).passes@.len() as int;
            let first = final(rg).passes@[n].data();
            let this = final(rg).passes@[n + i].data();
            let next = final(rg).passes@[n + i + 1].data();
            &&& final(rg).passes@.len() == n + 8
            &&& names(first.read@, accumulated.id)
            &&& names(first.read@, images.depth.id)
            &&& names(first.read@, images.normal.id)
            &&& names(first.read@, images.diffuse.id)
            &&& first.read@.len() == 4
            &&& this.write@.len() == 1
            &&& next.read@.len() == 1
            &&& next.write@.len() == 1
            &&& next.read@[0].id == this.write@[0].id
            &&& this.write@[0].id == pair@[i % 2].id
            &&& next.write@[0].id == pair@[(i + 1) % 2].id
            &&& declared_well(final(rg).passes@[n + i])
            &&& declared_well(final(rg).passes@[n + i + 1])
            &&& computes(
                *final(rg),
                frame,
                final(rg).passes@[n + i],
                spirv@,
                width,
                height,
                (push + i) as u64,
            )
            &&& computes(
                *final(rg),
                frame,
                final(rg).passes@[n + i + 1],
                spirv@,
                width,
                height,
                (push + i + 1) as u64,
            )
        }),
{
    let ds = denoise_passes(
        8,
        accumulated.id,
        (images.depth.id, images.normal.id, images.diffuse.id),
        (pair@[0].id, pair@[1].id),
        width,
        height,
        compute_key(spirv@),
        push,
    );
    let n = old(rg).passes@.len() as int;
    assert(pass_stands(*final(rg), n, old(rg).next_pass_id, frame, ds[0]));
    assert(pass_stands(*final(rg), n + i, (old(rg).next_pass_id + i) as u32, frame, ds[i]));
    assert(pass_stands(
        *final(rg),
        n + i + 1,
        (old(rg).next_pass_id + i + 1) as u32,
        frame,
        ds[i + 1],
    ));
    let first = final(rg).passes@[n].data();
    assert(first.read@[0].id == accumulated.id);
    assert(first.read@[1].id == images.depth.id);
    assert(first.read@[2].id == images.normal.id);
    assert(first.read@[3].id == images.diffuse.id);
}

} // verus!
