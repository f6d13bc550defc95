//! The passes of a path-traced frame: two of ray tracing, temporal accumulation, the
//! filter passes that denoise, and tone mapping.
use vk_sync_fork::AccessType;
use vstd::prelude::*;

use crate::error::{SrError, SrResult};
use crate::render_graph::access::ResourceRef;
use crate::render_graph::alias::MemoryLocation;
use crate::render_graph::graph::{
    imports_as, slot_of, AnyRenderPass, ExportedTemporalResource, RenderGraph, MAX_FRAMES_IN_FLIGHT,
};
use crate::render_graph::pass_builder::{
    compute_complaint, raytracing_complaint, raytracing_pass_key, read_ref, stage_code, write_ref,
    ComputeQueueAffinity, ComputeRenderPassBuilder, ComputeShaders, PassCommonData,
    PassCommonDataBuilder, RayTracingShaders, RaytracingRenderPass, RaytracingRenderPassBuilder,
    RenderJob, ShaderSource,
};
use crate::render_graph::pipeline_cache::{
    compute_key, raytracing_key, CachedPipeline, PipelineCache, PipelineHandle,
};
use crate::render_graph::resource::{
    AccelerationStructure, GraphResourceDesc, GraphResourceImportInfo, GraphResourceInfo, Handle,
    Image, ImageDesc, RawBuffer,
};
use crate::text::{decimal, push_decimal};

verus! {

// ---------------------------------------------------------------------------
// Pipelines
// ---------------------------------------------------------------------------

/// Which pipeline is asked for.
#[derive(Clone, Copy, Debug, PartialEq, Eq, Structural)]
pub enum ShaderRole {
    RaytracingRis,
    RaytracingFinal,
    TemporalAccumulation,
    Denoise,
    Postprocess,
}

/// Interning the pipeline of a pass: a key that is known changes nothing. Otherwise the
/// pipeline was built for the pass's role; it is the next entry, and the key leads to it.
pub open spec fn interned<B: Fn(ShaderRole) -> SrResult<CachedPipeline>>(
    before: PipelineCache,
    after: PipelineCache,
    d: Declared,
    build: B,
) -> bool {
    if before.by_key@.contains_key(d.key) {
        after == before
    } else {
        &&& after.by_key@ == before.by_key@.insert(
            d.key,
            PipelineHandle(before.entries.len() as u32),
        )
        &&& after.entries@.len() == before.entries@.len() + 1
        &&& after.entries@.drop_last() == before.entries@
        &&& build.ensures((d.role,), Ok(after.entries@.last()))
    }
}

/// Whether a pass among `ds` has this key.
pub open spec fn has_key(ds: Seq<Declared>, key: u64) -> bool {
    exists|i: int| 0 <= i < ds.len() && (#[trigger] ds[i]).key == key
}

/// The passes whose pipelines are new: those whose key is neither known nor that of a pass
/// before them.
pub open spec fn fresh_passes(known: Map<u64, PipelineHandle>, ds: Seq<Declared>) -> Seq<Declared>
    decreases ds.len(),
{
    if ds.len() == 0 {
        Seq::empty()
    } else {
        let d = ds.last();
        let rest = fresh_passes(known, ds.drop_last());
        if known.contains_key(d.key) || has_key(ds.drop_last(), d.key) {
            rest
        } else {
            rest.push(d)
        }
    }
}

/// Interning the pipelines of passes, one after the other: what is known stays. Every pass
/// with a new key adds an entry, built for its role, that its key leads to, and nothing
/// else is added.
pub open spec fn all_interned<B: Fn(ShaderRole) -> SrResult<CachedPipeline>>(
    before: PipelineCache,
    after: PipelineCache,
    ds: Seq<Declared>,
    build: B,
) -> bool {
    let fresh = fresh_passes(before.by_key@, ds);
    let first = before.entries@.len();
    &&& forall|key: u64| #[trigger]
        after.by_key@.contains_key(key) <==> before.by_key@.contains_key(key) || has_key(ds, key)
    &&& forall|key: u64| #[trigger]
        before.by_key@.contains_key(key) ==> after.by_key@[key] == before.by_key@[key]
    &&& after.entries@.len() == first + fresh.len()
    &&& after.entries@.take(first as int) == before.entries@
    &&& forall|i: int|
        0 <= i < fresh.len() ==> built_for(after, #[trigger] fresh[i], first + i, build)
}

/// Whether the key of a pass leads to the entry `at`, and that was built for the pass's
/// role.
pub open spec fn built_for<B: Fn(ShaderRole) -> SrResult<CachedPipeline>>(
    cache: PipelineCache,
    d: Declared,
    at: int,
    build: B,
) -> bool {
    &&& cache.by_key@.contains_key(d.key)
    &&& cache.by_key@[d.key] == PipelineHandle(at as u32)
    &&& build.ensures((d.role,), Ok(cache.entries@[at]))
}

/// The graph is the same but for its passes, its pass numbers and the pipelines of this
/// frame's slot.
pub open spec fn kept_but_passes(before: RenderGraph, after: RenderGraph, frame: usize) -> bool {
    &&& after == (RenderGraph {
        passes: after.passes,
        next_pass_id: after.next_pass_id,
        pipeline_caches: after.pipeline_caches,
        ..before
    })
    &&& after.slots_wf()
    &&& forall|s: int|
        0 <= s < MAX_FRAMES_IN_FLIGHT && s != slot_of(frame as int) ==> #[trigger] after.pipeline_caches[s]
            == before.pipeline_caches[s]
}

/// The pipelines of a frame's slot.
pub open spec fn cache_of(rg: RenderGraph, frame: usize) -> PipelineCache {
    rg.pipeline_caches[slot_of(frame as int)]
}

/// Whether a key leads to a pipeline in the cache of a frame's slot.
pub open spec fn pipeline_known(rg: RenderGraph, frame: usize, key: u64) -> bool {
    cache_of(rg, frame).by_key@.contains_key(key)
}

/// The pipeline that a key leads to.
pub open spec fn pipeline_of(rg: RenderGraph, frame: usize, key: u64) -> PipelineHandle {
    cache_of(rg, frame).by_key@[key]
}

// ---------------------------------------------------------------------------
// What a frame declares
// ---------------------------------------------------------------------------

/// The work of a pass.
pub ghost enum Work {
    /// Traces rays over an extent.
    Trace { extent: (u32, u32, u32) },
    /// Runs compute workgroups.
    Dispatch { groups: (u32, u32, u32) },
}

/// A pass as it is declared.
pub ghost struct Declared {
    pub name: Seq<char>,
    pub reads: Seq<ResourceRef>,
    pub writes: Seq<ResourceRef>,
    pub work: Work,
    /// What its pipeline is built for.
    pub role: ShaderRole,
    /// The key of its pipeline.
    pub key: u64,
    /// Where its push data stands in the frame's list.
    pub push: u64,
}

/// Whether `pass` is what is declared, under this number and with this pipeline.
pub open spec fn is_declared(
    pass: AnyRenderPass,
    id: u32,
    pipeline: PipelineHandle,
    d: Declared,
) -> bool {
    let common = pass.data();
    &&& common.id == id
    &&& common.name@ == d.name
    &&& common.read@ == d.reads
    &&& common.write@ == d.writes
    &&& !common.output
    &&& match d.work {
        Work::Trace { extent } => {
            &&& pass is Rt
            &&& (pass->Rt_0).trace_extent == extent
            &&& common.render == Some(RenderJob::TraceRays { pipeline, extent, push: d.push })
        },
        Work::Dispatch { groups } => {
            &&& pass is Compute
            &&& (pass->Compute_0).queue_affinity == ComputeQueueAffinity::Inferred
            &&& common.render == Some(RenderJob::Dispatch { pipeline, groups, push: d.push })
        },
    }
}

/// Whether a builder holds what is declared, but for the work.
pub open spec fn holds_declared(common: PassCommonData, id: u32, d: Declared) -> bool {
    &&& common.id == id
    &&& common.name@ == d.name
    &&& common.read@ == d.reads
    &&& common.write@ == d.writes
    &&& !common.output
}

/// What is said where the pipeline of a compute pass cannot be built.
pub open spec fn build_failure(what: Seq<char>, error: SrError) -> Seq<char> {
    what + " pass builder failed: "@ + error.description@
}

/// What the error of a pass calls the work of its role.
pub open spec fn work_name(role: ShaderRole) -> Seq<char> {
    match role {
        ShaderRole::TemporalAccumulation => "temporal accumulation"@,
        ShaderRole::Denoise => "denoise"@,
        ShaderRole::Postprocess => "postprocess"@,
        _ => "raytracing"@,
    }
}

/// Whether an error comes of a pipeline that could not be built. Ray-tracing passes hand
/// the error on; compute passes say whose pipeline it was.
pub open spec fn pipeline_failure<B: Fn(ShaderRole) -> SrResult<CachedPipeline>>(
    build: B,
    role: ShaderRole,
    e: SrError,
) -> bool {
    match role {
        ShaderRole::RaytracingRis | ShaderRole::RaytracingFinal => build.ensures((role,), Err(e)),
        _ => exists|cause: SrError| #[trigger]
            build.ensures((role,), Err(cause)) && e.is_custom(
                build_failure(work_name(role), cause),
            ),
    }
}

/// Whether a pass was added as it is declared, with the next pass number and the pipeline
/// of its key.
pub open spec fn pass_added<B: Fn(ShaderRole) -> SrResult<CachedPipeline>>(
    before: RenderGraph,
    after: RenderGraph,
    frame: usize,
    d: Declared,
    build: B,
) -> bool {
    &&& kept_but_passes(before, after, frame)
    &&& interned(cache_of(before, frame), cache_of(after, frame), d, build)
    &&& after.next_pass_id == before.next_pass_id + 1
    &&& after.passes@.len() == before.passes@.len() + 1
    &&& after.passes@.drop_last() == before.passes@
    &&& pipeline_known(after, frame, d.key)
    &&& is_declared(
        after.passes@.last(),
        before.next_pass_id,
        pipeline_of(after, frame, d.key),
        d,
    )
}

/// Whether a pass was refused: its key is not known and its pipeline could not be built.
/// Its number is taken, and nothing else has changed.
pub open spec fn pass_refused<B: Fn(ShaderRole) -> SrResult<CachedPipeline>>(
    before: RenderGraph,
    after: RenderGraph,
    frame: usize,
    d: Declared,
    build: B,
    e: SrError,
) -> bool {
    &&& after == (RenderGraph {
        next_pass_id: (before.next_pass_id + 1) as u32,
        pipeline_caches: after.pipeline_caches,
        ..before
    })
    &&& after.pipeline_caches@ == before.pipeline_caches@
    &&& !pipeline_known(before, frame, d.key)
    &&& pipeline_failure(build, d.role, e)
}

/// A copy of some code.
fn copied(code: &Vec<u8>) -> (copy: Vec<u8>)
    ensures
        copy@ == code@,
{
    let mut copy: Vec<u8> = Vec::with_capacity(code.len());
    for i in 0..code.len()
        invariant
            copy@ == code@.take(i as int),
    {
        copy.push(code[i]);
        assert(copy@ =~= code@.take(i + 1));
    }
    assert(code@.take(code@.len() as int) =~= code@);
    copy
}

/// Adds a compute pass: its pipeline is interned, and it dispatches `groups`.
fn add_compute_pass<B: Fn(ShaderRole) -> SrResult<CachedPipeline>>(
    rg: &mut RenderGraph,
    frame: usize,
    common: PassCommonData,
    spirv: &Vec<u8>,
    groups: (u32, u32, u32),
    push: u64,
    role: ShaderRole,
    build: &B,
    what: &str,
    Ghost(d): Ghost<Declared>,
    Ghost(start): Ghost<RenderGraph>,
) -> (r: SrResult<()>)
    requires
        old(rg).slots_wf(),
        old(rg).may_intern(frame),
        build.requires((role,)),
        holds_declared(common, start.next_pass_id, d),
        d.work == (Work::Dispatch { groups }),
        d.role == role,
        d.key == compute_key(spirv@),
        d.push == push,
        role !is RaytracingRis && role !is RaytracingFinal,
        what@ == work_name(role),
        start.next_pass_id < u32::MAX,
        *old(rg) == (RenderGraph { next_pass_id: (start.next_pass_id + 1) as u32, ..start }),
    ensures
        final(rg).slots_wf(),
        match r {
            Ok(_) => pass_added(start, *final(rg), frame, d, *build),
            Err(e) => pass_refused(start, *final(rg), frame, d, *build, e),
        },
{
    let ghost before = *rg;
    let source = ShaderSource::Spirv(copied(spirv));
    let mut sources: Vec<ShaderSource> = Vec::new();
    sources.push(source);
    let shaders = ComputeShaders::new(sources, 0, String::from_str("main"));
    let builder = ComputeRenderPassBuilder {
        common: Some(common),
        shaders: Some(shaders),
        queue_affinity: ComputeQueueAffinity::Inferred,
    };
    let ghost given = builder;
    let build_role = || -> (pipeline: SrResult<CachedPipeline>)
        requires
            build.requires((role,)),
        ensures
            build.ensures((role,), pipeline),
        { build(role) };
    assert(compute_complaint(builder.shaders) is None);
    assert(stage_code((builder.shaders->0).shaders@, (builder.shaders->0).entry_point) == spirv@);
    let generated = builder.generate_render(rg, frame, groups, push, build_role);
    proof {
        let pipeline = choose|pipeline: SrResult<PipelineHandle>|
            {
                &&& #[trigger] before.interns_into(
                    *rg,
                    frame,
                    compute_key(spirv@),
                    build_role,
                    pipeline,
                )
                &&& given.generates(groups, push, pipeline, generated)
            };
        assert(before.interns_into(*rg, frame, compute_key(spirv@), build_role, pipeline));
    }
    match generated {
        Ok(pass) => {
            rg.add_render_pass(AnyRenderPass::Compute(pass));
            proof {
                assert(rg.passes@.drop_last() =~= before.passes@);
            }
            Ok(())
        },
        Err(e) => {
            let mut text = what.to_owned();
            text.append(" pass builder failed: ");
            text.append(e.description.as_str());
            proof {
                assert(rg.pipeline_caches@ =~= start.pipeline_caches@);
                assert(build.ensures((role,), Err(e)));
                assert(text@ == build_failure(what@, e));
            }
            Err(SrError::new_custom(text))
        },
    }
}

/// The compiled stages of a ray-tracing pipeline.
#[derive(Debug)]
pub struct RayCode<'a> {
    pub ray_gen: &'a Vec<u8>,
    pub miss: &'a Vec<u8>,
    pub closest_hit: &'a Vec<u8>,
    pub any_hit: &'a Vec<u8>,
}

impl<'a> RayCode<'a> {
    /// The key of the pipeline of these stages.
    pub open spec fn key(self) -> u64 {
        raytracing_key(self.ray_gen@, self.miss@, self.closest_hit@, self.any_hit@)
    }

    /// The stages as a pass takes them: each a module of its own, with the entry point
    /// `main`.
    fn shaders(&self) -> (shaders: RayTracingShaders)
        ensures
            raytracing_complaint(Some(shaders), Some((0, 0, 0))) is None,
            raytracing_pass_key(shaders) == self.key(),
    {
        let mut sources: Vec<ShaderSource> = Vec::new();
        sources.push(ShaderSource::Spirv(copied(self.ray_gen)));
        sources.push(ShaderSource::Spirv(copied(self.miss)));
        sources.push(ShaderSource::Spirv(copied(self.closest_hit)));
        sources.push(ShaderSource::Spirv(copied(self.any_hit)));
        RayTracingShaders::new(
            sources,
            (0, String::from_str("main")),
            (1, String::from_str("main")),
            (2, String::from_str("main")),
            (3, String::from_str("main")),
        )
    }
}

/// Adds a ray-tracing pass: its pipeline is interned, and it traces over `extent`.
fn add_trace_pass<B: Fn(ShaderRole) -> SrResult<CachedPipeline>>(
    rg: &mut RenderGraph,
    frame: usize,
    common: PassCommonData,
    code: &RayCode<'_>,
    extent: (u32, u32, u32),
    push: u64,
    role: ShaderRole,
    build: &B,
    Ghost(d): Ghost<Declared>,
    Ghost(start): Ghost<RenderGraph>,
) -> (r: SrResult<()>)
    requires
        old(rg).slots_wf(),
        old(rg).may_intern(frame),
        build.requires((role,)),
        holds_declared(common, start.next_pass_id, d),
        d.work == (Work::Trace { extent }),
        d.role == role,
        d.key == code.key(),
        d.push == push,
        role is RaytracingRis || role is RaytracingFinal,
        start.next_pass_id < u32::MAX,
        *old(rg) == (RenderGraph { next_pass_id: (start.next_pass_id + 1) as u32, ..start }),
    ensures
        final(rg).slots_wf(),
        match r {
            Ok(_) => pass_added(start, *final(rg), frame, d, *build),
            Err(e) => pass_refused(start, *final(rg), frame, d, *build, e),
        },
{
    let ghost before = *rg;
    let builder = RaytracingRenderPassBuilder {
        common: Some(common),
        shaders: Some(code.shaders()),
        trace_extent: Some(extent),
    };
    let ghost given = builder;
    let build_role = || -> (pipeline: SrResult<CachedPipeline>)
        requires
            build.requires((role,)),
        ensures
            build.ensures((role,), pipeline),
        { build(role) };
    assert(raytracing_complaint(builder.shaders, builder.trace_extent) is None);
    let generated = builder.generate_render(rg, frame, push, build_role);
    proof {
        let pipeline = choose|pipeline: SrResult<PipelineHandle>|
            {
                &&& #[trigger] before.interns_into(*rg, frame, code.key(), build_role, pipeline)
                &&& given.generates(push, pipeline, generated)
            };
        assert(before.interns_into(*rg, frame, code.key(), build_role, pipeline));
    }
    match generated {
        Ok(made) => {
            let common = made.common.unwrap();
            rg.add_render_pass(
                AnyRenderPass::Rt(
                    RaytracingRenderPass { common, shaders: made.shaders, trace_extent: extent },
                ),
            );
            proof {
                assert(rg.passes@.drop_last() =~= before.passes@);
            }
            Ok(())
        },
        Err(e) => {
            proof {
                assert(rg.pipeline_caches@ =~= start.pipeline_caches@);
            }
            Err(e)
        },
    }
}

// ---------------------------------------------------------------------------
// The passes
// ---------------------------------------------------------------------------

/// How many filter passes denoise a frame.
pub const DENOISE_PASSES: u32 = 8;

/// The edge of a compute workgroup.
pub const GROUP_EDGE: u32 = 16;

/// What the ray-tracing passes write for the rest of the frame.
pub struct FrameImages {
    pub raw_color: Handle<Image>,
    pub depth: Handle<Image>,
    pub normal: Handle<Image>,
    pub diffuse: Handle<Image>,
    pub motion: Handle<Image>,
}

/// What the ray-tracing passes read and write besides: the reservoirs, the arenas of
/// mesh data, and the scene.
pub struct FrameBuffers {
    pub reservoirs: [Handle<RawBuffer>; 2],
    pub reservoirs_gi: [Handle<RawBuffer>; 2],
    pub arenas: [Handle<RawBuffer>; 2],
    pub tlas: Handle<AccelerationStructure>,
}

/// The resources of the ray-tracing passes, by number.
pub ghost struct RayIds {
    /// Color, depth, normal, diffuse and motion.
    pub images: Seq<u32>,
    pub reservoirs: Seq<u32>,
    pub arenas: Seq<u32>,
    pub tlas: u32,
}

/// The arenas, by number.
pub open spec fn arena_ids(arenas: [Handle<RawBuffer>; 2]) -> Seq<u32> {
    seq![arenas[0].id, arenas[1].id]
}

/// The resources of the ray-tracing passes, by number.
pub open spec fn ray_ids(images: FrameImages, buffers: FrameBuffers) -> RayIds {
    RayIds {
        images: seq![
            images.raw_color.id,
            images.depth.id,
            images.normal.id,
            images.diffuse.id,
            images.motion.id,
        ],
        reservoirs: seq![
            buffers.reservoirs[0].id,
            buffers.reservoirs[1].id,
            buffers.reservoirs_gi[0].id,
            buffers.reservoirs_gi[1].id,
        ],
        arenas: arena_ids(buffers.arenas),
        tlas: buffers.tlas.id,
    }
}

impl RayIds {
    /// The images as both ray-tracing passes write them. There is no access of its own
    /// for a ray-tracing write, so it is the general one.
    pub open spec fn images_written(self) -> Seq<ResourceRef> {
        self.images.map_values(|id: u32| write_ref(id, AccessType::General))
    }

    /// The reservoirs as the first pass fills them.
    pub open spec fn reservoirs_written(self) -> Seq<ResourceRef> {
        self.reservoirs.map_values(|id: u32| write_ref(id, AccessType::AnyShaderWrite))
    }

    /// The reservoirs as the second pass reads them.
    pub open spec fn reservoirs_read(self) -> Seq<ResourceRef> {
        self.reservoirs.map_values(|id: u32| read_ref(id, AccessType::RayTracingShaderReadOther))
    }

    /// The scene, as rays read it.
    pub open spec fn scene_read(self) -> Seq<ResourceRef> {
        seq![read_ref(self.tlas, AccessType::RayTracingShaderReadAccelerationStructure)]
    }

    /// The arenas, as rays read them.
    pub open spec fn arenas_read(self) -> Seq<ResourceRef> {
        self.arenas.map_values(|id: u32| read_ref(id, AccessType::RayTracingShaderReadOther))
    }
}

/// The pass that looks for light: it traces few rays, and fills the reservoirs.
pub open spec fn ris_pass(ids: RayIds, extent: (u32, u32, u32), key: u64, push: u64) -> Declared {
    Declared {
        name: "raytracing_ris"@,
        reads: ids.scene_read() + ids.arenas_read(),
        writes: ids.images_written() + ids.reservoirs_written(),
        work: Work::Trace { extent },
        role: ShaderRole::RaytracingRis,
        key,
        push,
    }
}

/// The pass that shades: it reads the reservoirs, and writes the images again.
pub open spec fn final_pass(ids: RayIds, extent: (u32, u32, u32), key: u64, push: u64) -> Declared {
    Declared {
        name: "raytracing_final"@,
        reads: ids.scene_read() + ids.reservoirs_read() + ids.arenas_read(),
        writes: ids.images_written(),
        work: Work::Trace { extent },
        role: ShaderRole::RaytracingFinal,
        key,
        push,
    }
}

/// How many workgroups cover a length.
pub open spec fn groups_over(length: u32) -> u32 {
    ((length + GROUP_EDGE - 1) / GROUP_EDGE as int) as u32
}

/// The workgroups that cover an image.
pub open spec fn groups_covering(width: u32, height: u32) -> (u32, u32, u32) {
    (groups_over(width), groups_over(height), 1)
}

fn group_count(length: u32) -> (groups: u32)
    ensures
        groups == groups_over(length),
{
    let rest: u32 = if length % GROUP_EDGE > 0 {
        1
    } else {
        0
    };
    length / GROUP_EDGE + rest
}

/// The pass that blends the frame with those before it.
pub open spec fn temporal_pass(
    raw_color: u32,
    motion: u32,
    history: u32,
    target: u32,
    width: u32,
    height: u32,
    key: u64,
    push: u64,
) -> Declared {
    Declared {
        name: "temporal_accumulation"@,
        reads: seq![
            read_ref(raw_color, AccessType::ComputeShaderReadOther),
            read_ref(motion, AccessType::ComputeShaderReadOther),
            read_ref(history, AccessType::ComputeShaderReadOther),
        ],
        writes: seq![write_ref(target, AccessType::ComputeShaderWrite)],
        work: Work::Dispatch { groups: groups_covering(width, height) },
        role: ShaderRole::TemporalAccumulation,
        key,
        push,
    }
}

/// What a filter pass reads: the accumulated image first, and then what the pass before
/// wrote.
pub open spec fn denoise_input(i: int, accumulated: u32, pair: (u32, u32)) -> u32 {
    if i == 0 {
        accumulated
    } else {
        denoise_output(i - 1, pair)
    }
}

/// What a filter pass writes: one image of the pair after the other.
pub open spec fn denoise_output(i: int, pair: (u32, u32)) -> u32 {
    if i % 2 == 0 {
        pair.0
    } else {
        pair.1
    }
}

/// How a filter pass reads the surface images.
pub open spec fn sampled_ref(id: u32) -> ResourceRef {
    read_ref(id, AccessType::ComputeShaderReadSampledImageOrUniformTexelBuffer)
}

/// The `i`-th filter pass. The first also declares the surface images, which puts them
/// into the layout that all of the passes sample them in.
pub open spec fn denoise_pass(
    i: int,
    accumulated: u32,
    surface: (u32, u32, u32),
    pair: (u32, u32),
    width: u32,
    height: u32,
    key: u64,
    push: u64,
) -> Declared {
    let input = read_ref(denoise_input(i, accumulated, pair), AccessType::ComputeShaderReadOther);
    Declared {
        name: "denoise_"@ + decimal(i as nat),
        reads: if i == 0 {
            seq![
                input,
                sampled_ref(surface.0),
                sampled_ref(surface.1),
                sampled_ref(surface.2),
            ]
        } else {
            seq![input]
        },
        writes: seq![write_ref(denoise_output(i, pair), AccessType::ComputeShaderWrite)],
        work: Work::Dispatch { groups: groups_covering(width, height) },
        role: ShaderRole::Denoise,
        key,
        push,
    }
}

/// The pass that maps tones into what is shown.
pub open spec fn postprocess_pass(
    input: u32,
    output: u32,
    width: u32,
    height: u32,
    key: u64,
    push: u64,
) -> Declared {
    Declared {
        name: "postprocess"@,
        reads: seq![read_ref(input, AccessType::ComputeShaderReadOther)],
        writes: seq![write_ref(output, AccessType::ComputeShaderWrite)],
        work: Work::Dispatch { groups: groups_covering(width, height) },
        role: ShaderRole::Postprocess,
        key,
        push,
    }
}

/// Adds the pass that looks for light.
pub fn add_raytracing_ris_pass<B: Fn(ShaderRole) -> SrResult<CachedPipeline>>(
    rg: &mut RenderGraph,
    frame: usize,
    code: &RayCode<'_>,
    images: &FrameImages,
    buffers: &FrameBuffers,
    extent: (u32, u32, u32),
    push: u64,
    build: &B,
) -> (r: SrResult<()>)
    requires
        old(rg).slots_wf(),
        old(rg).may_intern(frame),
        old(rg).next_pass_id < u32::MAX,
        build.requires((ShaderRole::RaytracingRis,)),
    ensures
        final(rg).slots_wf(),
        ({
            let d = ris_pass(ray_ids(*images, *buffers), extent, code.key(), push);
            match r {
                Ok(_) => pass_added(*old(rg), *final(rg), frame, d, *build),
                Err(e) => pass_refused(*old(rg), *final(rg), frame, d, *build, e),
            }
        }),
{
    let ghost d = ris_pass(ray_ids(*images, *buffers), extent, code.key(), push);
    let ghost start = *rg;
    let mut common = PassCommonDataBuilder::new(rg, "raytracing_ris");
    common.write(&images.raw_color, AccessType::General)?;
    common.write(&images.depth, AccessType::General)?;
    common.write(&images.normal, AccessType::General)?;
    common.write(&images.diffuse, AccessType::General)?;
    common.write(&images.motion, AccessType::General)?;
    common.read(&buffers.tlas, AccessType::RayTracingShaderReadAccelerationStructure)?;
    common.write(&buffers.reservoirs[0], AccessType::AnyShaderWrite)?;
    common.write(&buffers.reservoirs[1], AccessType::AnyShaderWrite)?;
    common.write(&buffers.reservoirs_gi[0], AccessType::AnyShaderWrite)?;
    common.write(&buffers.reservoirs_gi[1], AccessType::AnyShaderWrite)?;
    common.read(&buffers.arenas[0], AccessType::RayTracingShaderReadOther)?;
    common.read(&buffers.arenas[1], AccessType::RayTracingShaderReadOther)?;
    let common = common.build();
    proof {
        assert(common.read@ =~= d.reads);
        assert(common.write@ =~= d.writes);
    }
    add_trace_pass(
        rg,
        frame,
        common,
        code,
        extent,
        push,
        ShaderRole::RaytracingRis,
        build,
        Ghost(d),
        Ghost(start),
    )
}

/// Adds the pass that shades.
pub fn add_raytracing_final_pass<B: Fn(ShaderRole) -> SrResult<CachedPipeline>>(
    rg: &mut RenderGraph,
    frame: usize,
    code: &RayCode<'_>,
    images: &FrameImages,
    buffers: &FrameBuffers,
    extent: (u32, u32, u32),
    push: u64,
    build: &B,
) -> (r: SrResult<()>)
    requires
        old(rg).slots_wf(),
        old(rg).may_intern(frame),
        old(rg).next_pass_id < u32::MAX,
        build.requires((ShaderRole::RaytracingFinal,)),
    ensures
        final(rg).slots_wf(),
        ({
            let d = final_pass(ray_ids(*images, *buffers), extent, code.key(), push);
            match r {
                Ok(_) => pass_added(*old(rg), *final(rg), frame, d, *build),
                Err(e) => pass_refused(*old(rg), *final(rg), frame, d, *build, e),
            }
        }),
{
    let ghost d = final_pass(ray_ids(*images, *buffers), extent, code.key(), push);
    let ghost start = *rg;
    let mut common = PassCommonDataBuilder::new(rg, "raytracing_final");
    common.write(&images.raw_color, AccessType::General)?;
    common.write(&images.depth, AccessType::General)?;
    common.write(&images.normal, AccessType::General)?;
    common.write(&images.diffuse, AccessType::General)?;
    common.write(&images.motion, AccessType::General)?;
    common.read(&buffers.tlas, AccessType::RayTracingShaderReadAccelerationStructure)?;
    common.read(&buffers.reservoirs[0], AccessType::RayTracingShaderReadOther)?;
    common.read(&buffers.reservoirs[1], AccessType::RayTracingShaderReadOther)?;
    common.read(&buffers.reservoirs_gi[0], AccessType::RayTracingShaderReadOther)?;
    common.read(&buffers.reservoirs_gi[1], AccessType::RayTracingShaderReadOther)?;
    common.read(&buffers.arenas[0], AccessType::RayTracingShaderReadOther)?;
    common.read(&buffers.arenas[1], AccessType::RayTracingShaderReadOther)?;
    let common = common.build();
    proof {
        assert(common.read@ =~= d.reads);
        assert(common.write@ =~= d.writes);
    }
    add_trace_pass(
        rg,
        frame,
        common,
        code,
        extent,
        push,
        ShaderRole::RaytracingFinal,
        build,
        Ghost(d),
        Ghost(start),
    )
}

/// Adds the pass that blends the frame with those before it.
pub fn add_temporal_pass<B: Fn(ShaderRole) -> SrResult<CachedPipeline>>(
    rg: &mut RenderGraph,
    frame: usize,
    spirv: &Vec<u8>,
    raw_color: &Handle<Image>,
    motion: &Handle<Image>,
    history: &Handle<Image>,
    accum_target: &Handle<Image>,
    width: u32,
    height: u32,
    push: u64,
    build: &B,
) -> (r: SrResult<()>)
    requires
        old(rg).slots_wf(),
        old(rg).may_intern(frame),
        old(rg).next_pass_id < u32::MAX,
        build.requires((ShaderRole::TemporalAccumulation,)),
    ensures
        final(rg).slots_wf(),
        ({
            let d = temporal_pass(
                raw_color.id,
                motion.id,
                history.id,
                accum_target.id,
                width,
                height,
                compute_key(spirv@),
                push,
            );
            match r {
                Ok(_) => pass_added(*old(rg), *final(rg), frame, d, *build),
                Err(e) => pass_refused(*old(rg), *final(rg), frame, d, *build, e),
            }
        }),
{
    let ghost d = temporal_pass(
        raw_color.id,
        motion.id,
        history.id,
        accum_target.id,
        width,
        height,
        compute_key(spirv@),
        push,
    );
    let ghost start = *rg;
    let mut common = PassCommonDataBuilder::new(rg, "temporal_accumulation");
    common.read(raw_color, AccessType::ComputeShaderReadOther)?;
    common.read(motion, AccessType::ComputeShaderReadOther)?;
    common.read(history, AccessType::ComputeShaderReadOther)?;
    common.write(accum_target, AccessType::ComputeShaderWrite)?;
    let common = common.build();
    proof {
        assert(common.read@ =~= d.reads);
        assert(common.write@ =~= d.writes);
    }
    add_compute_pass(
        rg,
        frame,
        common,
        spirv,
        (group_count(width), group_count(height), 1),
        push,
        ShaderRole::TemporalAccumulation,
        build,
        "temporal accumulation",
        Ghost(d),
        Ghost(start),
    )
}

/// Adds the pass that maps tones into what is shown.
pub fn add_postprocess_pass<B: Fn(ShaderRole) -> SrResult<CachedPipeline>>(
    rg: &mut RenderGraph,
    frame: usize,
    spirv: &Vec<u8>,
    denoise_in: &Handle<Image>,
    postprocess_out: &Handle<Image>,
    width: u32,
    height: u32,
    push: u64,
    build: &B,
) -> (r: SrResult<()>)
    requires
        old(rg).slots_wf(),
        old(rg).may_intern(frame),
        old(rg).next_pass_id < u32::MAX,
        build.requires((ShaderRole::Postprocess,)),
    ensures
        final(rg).slots_wf(),
        ({
            let d = postprocess_pass(
                denoise_in.id,
                postprocess_out.id,
                width,
                height,
                compute_key(spirv@),
                push,
            );
            match r {
                Ok(_) => pass_added(*old(rg), *final(rg), frame, d, *build),
                Err(e) => pass_refused(*old(rg), *final(rg), frame, d, *build, e),
            }
        }),
{
    let ghost d = postprocess_pass(
        denoise_in.id,
        postprocess_out.id,
        width,
        height,
        compute_key(spirv@),
        push,
    );
    let ghost start = *rg;
    let mut common = PassCommonDataBuilder::new(rg, "postprocess");
    common.read(denoise_in, AccessType::ComputeShaderReadOther)?;
    common.write(postprocess_out, AccessType::ComputeShaderWrite)?;
    let common = common.build();
    proof {
        assert(common.read@ =~= d.reads);
        assert(common.write@ =~= d.writes);
    }
    add_compute_pass(
        rg,
        frame,
        common,
        spirv,
        (group_count(width), group_count(height), 1),
        push,
        ShaderRole::Postprocess,
        build,
        "postprocess",
        Ghost(d),
        Ghost(start),
    )
}

// ---------------------------------------------------------------------------
// Several passes
// ---------------------------------------------------------------------------

/// Whether passes stand behind those of `before` as they are declared, numbered on from
/// there, with the pipelines of their keys.
pub open spec fn passes_standing<B: Fn(ShaderRole) -> SrResult<CachedPipeline>>(
    before: RenderGraph,
    after: RenderGraph,
    frame: usize,
    ds: Seq<Declared>,
    build: B,
) -> bool {
    &&& kept_but_passes(before, after, frame)
    &&& all_interned(cache_of(before, frame), cache_of(after, frame), ds, build)
    &&& after.passes@.len() == before.passes@.len() + ds.len()
    &&& after.passes@.take(before.passes@.len() as int) == before.passes@
    &&& forall|i: int|
        0 <= i < ds.len() ==> pass_stands(
            after,
            before.passes@.len() + i,
            (before.next_pass_id + i) as u32,
            frame,
            #[trigger] ds[i],
        )
}

/// Whether passes were added as they are declared, with the next pass numbers.
pub open spec fn passes_added<B: Fn(ShaderRole) -> SrResult<CachedPipeline>>(
    before: RenderGraph,
    after: RenderGraph,
    frame: usize,
    ds: Seq<Declared>,
    build: B,
) -> bool {
    &&& passes_standing(before, after, frame, ds, build)
    &&& after.next_pass_id == before.next_pass_id + ds.len()
}

/// Whether adding passes came to an end at the `n`-th: those before it were added, and it
/// was refused, since its key is not known and its pipeline could not be built.
pub open spec fn passes_stopped<B: Fn(ShaderRole) -> SrResult<CachedPipeline>>(
    before: RenderGraph,
    after: RenderGraph,
    frame: usize,
    ds: Seq<Declared>,
    n: int,
    build: B,
    e: SrError,
) -> bool {
    &&& 0 <= n < ds.len()
    &&& passes_standing(before, after, frame, ds.take(n), build)
    &&& after.next_pass_id == before.next_pass_id + n + 1
    &&& !pipeline_known(after, frame, ds[n].key)
    &&& pipeline_failure(build, ds[n].role, e)
}

/// Whether a pass stands in a graph as it is declared.
pub open spec fn pass_stands(
    rg: RenderGraph,
    at: int,
    id: u32,
    frame: usize,
    d: Declared,
) -> bool {
    pipeline_known(rg, frame, d.key) && is_declared(
        rg.passes@[at],
        id,
        pipeline_of(rg, frame, d.key),
        d,
    )
}

proof fn lemma_nothing_added<B: Fn(ShaderRole) -> SrResult<CachedPipeline>>(
    rg: RenderGraph,
    frame: usize,
    build: B,
)
    requires
        rg.slots_wf(),
    ensures
        passes_added(rg, rg, frame, Seq::empty(), build),
{
    let cache = cache_of(rg, frame);
    assert(rg.passes@.take(rg.passes@.len() as int) =~= rg.passes@);
    assert(cache.entries@.take(cache.entries@.len() as int) =~= cache.entries@);
}

/// Of passes that share a key only one brings a pipeline, and none does whose key is known:
/// what is new among them was not known, and has a key that nothing else new has.
pub proof fn law_pipelines_are_built_once(known: Map<u64, PipelineHandle>, ds: Seq<Declared>)
    ensures
        forall|i: int|
            0 <= i < fresh_passes(known, ds).len() ==> !known.contains_key(
                (#[trigger] fresh_passes(known, ds)[i]).key,
            ) && has_key(ds, fresh_passes(known, ds)[i].key),
        forall|i: int, j: int|
            #![trigger fresh_passes(known, ds)[i], fresh_passes(known, ds)[j]]
            0 <= i < j < fresh_passes(known, ds).len() ==> fresh_passes(known, ds)[i].key
                != fresh_passes(known, ds)[j].key,
        fresh_passes(known, ds).len() <= ds.len(),
    decreases ds.len(),
{
    if ds.len() > 0 {
        let few = ds.drop_last();
        law_pipelines_are_built_once(known, few);
        let fresh = fresh_passes(known, ds);
        let before = fresh_passes(known, few);
        assert forall|i: int| 0 <= i < fresh.len() implies !known.contains_key(
            (#[trigger] fresh[i]).key,
        ) && has_key(ds, fresh[i].key) by {
            if i < before.len() {
                assert(fresh[i] == before[i]);
                let k = choose|k: int| 0 <= k < few.len() && (#[trigger] few[k]).key == before[i].key;
                assert(ds[k] == few[k]);
            } else {
                assert(ds[ds.len() - 1].key == fresh[i].key);
            }
        }
        assert forall|i: int, j: int| #![trigger fresh[i], fresh[j]]
            0 <= i < j < fresh.len() implies fresh[i].key != fresh[j].key by {
            assert(fresh[i] == before[i]);
            if j < before.len() {
                assert(fresh[j] == before[j]);
            }
        }
    }
}

/// What is new among more passes is new among all that are not known after the first.
proof fn lemma_fresh_of_all(
    known: Map<u64, PipelineHandle>,
    then: Map<u64, PipelineHandle>,
    ds: Seq<Declared>,
    more: Seq<Declared>,
)
    requires
        forall|key: u64| #[trigger]
            then.contains_key(key) <==> known.contains_key(key) || has_key(ds, key),
    ensures
        fresh_passes(known, ds + more) == fresh_passes(known, ds) + fresh_passes(then, more),
        forall|key: u64| #[trigger]
            has_key(ds + more, key) <==> has_key(ds, key) || has_key(more, key),
    decreases more.len(),
{
    let all = ds + more;
    assert forall|key: u64| #[trigger] has_key(all, key) <==> has_key(ds, key) || has_key(
        more,
        key,
    ) by {
        if has_key(ds, key) {
            let k = choose|k: int| 0 <= k < ds.len() && (#[trigger] ds[k]).key == key;
            assert(all[k].key == key);
        }
        if has_key(more, key) {
            let k = choose|k: int| 0 <= k < more.len() && (#[trigger] more[k]).key == key;
            assert(all[ds.len() + k].key == key);
        }
        if has_key(all, key) {
            let k = choose|k: int| 0 <= k < all.len() && (#[trigger] all[k]).key == key;
            if k < ds.len() {
                assert(ds[k].key == key);
            } else {
                assert(more[k - ds.len()].key == key);
            }
        }
    }
    if more.len() == 0 {
        assert(all =~= ds);
        assert(fresh_passes(known, ds) + fresh_passes(then, more) =~= fresh_passes(known, ds));
    } else {
        let few = more.drop_last();
        lemma_fresh_of_all(known, then, ds, few);
        assert(all.drop_last() =~= ds + few);
        assert(all.last() == more.last());
        let key = more.last().key;
        assert(has_key(ds + few, key) <==> has_key(ds, key) || has_key(few, key));
        assert(then.contains_key(key) <==> known.contains_key(key) || has_key(ds, key));
        assert(fresh_passes(known, all) =~= fresh_passes(known, ds) + fresh_passes(then, more));
    }
}

/// Interning twice.
proof fn lemma_interned_twice<B: Fn(ShaderRole) -> SrResult<CachedPipeline>>(
    a: PipelineCache,
    b: PipelineCache,
    c: PipelineCache,
    ds: Seq<Declared>,
    more: Seq<Declared>,
    build: B,
)
    requires
        all_interned(a, b, ds, build),
        all_interned(b, c, more, build),
    ensures
        all_interned(a, c, ds + more, build),
{
    let first = a.entries@.len();
    let early = fresh_passes(a.by_key@, ds);
    let late = fresh_passes(b.by_key@, more);
    let fresh = fresh_passes(a.by_key@, ds + more);
    lemma_fresh_of_all(a.by_key@, b.by_key@, ds, more);
    lemma_kept(a.entries@, b.entries@);
    lemma_kept(b.entries@, c.entries@);
    assert forall|key: u64| #[trigger]
        c.by_key@.contains_key(key) <==> a.by_key@.contains_key(key) || has_key(
            ds + more,
            key,
        ) by {
        assert(has_key(ds + more, key) <==> has_key(ds, key) || has_key(more, key));
        assert(b.by_key@.contains_key(key) <==> a.by_key@.contains_key(key) || has_key(ds, key));
    }
    assert forall|key: u64| #[trigger] a.by_key@.contains_key(key) implies c.by_key@[key]
        == a.by_key@[key] by {
        assert(b.by_key@.contains_key(key));
    }
    assert(c.entries@.take(first as int) =~= a.entries@);
    assert forall|i: int| 0 <= i < fresh.len() implies built_for(
        c,
        #[trigger] fresh[i],
        first + i,
        build,
    ) by {
        if i < early.len() {
            assert(fresh[i] == early[i]);
            assert(built_for(b, early[i], first + i, build));
            assert(c.by_key@.contains_key(early[i].key));
        } else {
            let j = i - early.len();
            assert(fresh[i] == late[j]);
            assert(built_for(c, late[j], b.entries@.len() + j, build));
        }
    }
}

/// A pass that was added, as a list of one.
proof fn lemma_one_added<B: Fn(ShaderRole) -> SrResult<CachedPipeline>>(
    before: RenderGraph,
    after: RenderGraph,
    frame: usize,
    d: Declared,
    build: B,
)
    requires
        pass_added(before, after, frame, d, build),
    ensures
        passes_added(before, after, frame, seq![d], build),
{
    let ds = seq![d];
    let b = cache_of(before, frame);
    let a = cache_of(after, frame);
    assert(ds.drop_last() =~= Seq::empty());
    assert(fresh_passes(b.by_key@, ds.drop_last()) =~= Seq::empty());
    assert(!has_key(ds.drop_last(), d.key));
    assert(after.passes@.take(before.passes@.len() as int) =~= before.passes@) by {
        lemma_grew(before.passes@, after.passes@);
    }
    assert forall|key: u64| #[trigger]
        a.by_key@.contains_key(key) <==> b.by_key@.contains_key(key) || has_key(ds, key) by {
        if key == d.key {
            assert(ds[0].key == key);
        }
    }
    if b.by_key@.contains_key(d.key) {
        assert(fresh_passes(b.by_key@, ds) =~= Seq::empty());
        assert(a.entries@.take(b.entries@.len() as int) =~= b.entries@);
    } else {
        let fresh = fresh_passes(b.by_key@, ds);
        assert(fresh =~= seq![d]);
        lemma_grew(b.entries@, a.entries@);
        assert(a.entries@.take(b.entries@.len() as int) =~= b.entries@);
        assert(built_for(a, d, b.entries@.len() as int, build));
    }
    assert forall|i: int| 0 <= i < ds.len() implies pass_stands(
        after,
        before.passes@.len() + i,
        (before.next_pass_id + i) as u32,
        frame,
        #[trigger] ds[i],
    ) by {
        assert(after.passes@[before.passes@.len() + i] == after.passes@.last());
    }
}

/// Passes behind passes.
proof fn lemma_many_more<B: Fn(ShaderRole) -> SrResult<CachedPipeline>>(
    a: RenderGraph,
    b: RenderGraph,
    c: RenderGraph,
    frame: usize,
    ds: Seq<Declared>,
    more: Seq<Declared>,
    build: B,
)
    requires
        passes_added(a, b, frame, ds, build),
        passes_added(b, c, frame, more, build),
    ensures
        passes_added(a, c, frame, ds + more, build),
{
    let first = a.passes@.len() as int;
    let all = ds + more;
    lemma_interned_twice(
        cache_of(a, frame),
        cache_of(b, frame),
        cache_of(c, frame),
        ds,
        more,
        build,
    );
    lemma_kept(b.passes@, c.passes@);
    assert forall|i: int| 0 <= i < all.len() implies pass_stands(
        c,
        first + i,
        (a.next_pass_id + i) as u32,
        frame,
        #[trigger] all[i],
    ) by {
        if i < ds.len() {
            assert(all[i] == ds[i]);
            assert(pass_stands(b, first + i, (a.next_pass_id + i) as u32, frame, ds[i]));
            assert(c.passes@[first + i] == b.passes@[first + i]);
            assert(cache_of(b, frame).by_key@.contains_key(ds[i].key));
        } else {
            let j = i - ds.len();
            assert(all[i] == more[j]);
            assert(pass_stands(
                c,
                b.passes@.len() + j,
                (b.next_pass_id + j) as u32,
                frame,
                more[j],
            ));
        }
    }
    assert(c.passes@.take(first) =~= b.passes@.take(first));
    assert forall|s: int|
        0 <= s < MAX_FRAMES_IN_FLIGHT && s != slot_of(
            frame as int,
        ) implies #[trigger] c.pipeline_caches[s] == a.pipeline_caches[s] by {
        assert(b.pipeline_caches[s] == a.pipeline_caches[s]);
    }
}

/// One more pass.
proof fn lemma_one_more<B: Fn(ShaderRole) -> SrResult<CachedPipeline>>(
    a: RenderGraph,
    b: RenderGraph,
    c: RenderGraph,
    frame: usize,
    ds: Seq<Declared>,
    n: int,
    build: B,
)
    requires
        0 <= n < ds.len(),
        passes_added(a, b, frame, ds.take(n), build),
        pass_added(b, c, frame, ds[n], build),
    ensures
        passes_added(a, c, frame, ds.take(n + 1), build),
{
    lemma_one_added(b, c, frame, ds[n], build);
    lemma_many_more(a, b, c, frame, ds.take(n), seq![ds[n]], build);
    assert(ds.take(n) + seq![ds[n]] =~= ds.take(n + 1));
}

/// A pass that is refused behind passes.
proof fn lemma_stopped<B: Fn(ShaderRole) -> SrResult<CachedPipeline>>(
    a: RenderGraph,
    b: RenderGraph,
    c: RenderGraph,
    frame: usize,
    ds: Seq<Declared>,
    n: int,
    build: B,
    e: SrError,
)
    requires
        0 <= n < ds.len(),
        b.next_pass_id < u32::MAX,
        passes_added(a, b, frame, ds.take(n), build),
        pass_refused(b, c, frame, ds[n], build, e),
    ensures
        passes_stopped(a, c, frame, ds, n, build, e),
{
    let few = ds.take(n);
    assert forall|s: int| 0 <= s < MAX_FRAMES_IN_FLIGHT implies #[trigger] c.pipeline_caches[s]
        == b.pipeline_caches[s] by {
        assert(c.pipeline_caches@[s] == b.pipeline_caches@[s]);
    }
    assert forall|i: int| 0 <= i < few.len() implies pass_stands(
        c,
        a.passes@.len() + i,
        (a.next_pass_id + i) as u32,
        frame,
        #[trigger] few[i],
    ) by {
        assert(pass_stands(
            b,
            a.passes@.len() + i,
            (a.next_pass_id + i) as u32,
            frame,
            few[i],
        ));
    }
}

/// The filter passes of a frame, the first `n` of them.
pub open spec fn denoise_passes(
    n: nat,
    accumulated: u32,
    surface: (u32, u32, u32),
    pair: (u32, u32),
    width: u32,
    height: u32,
    key: u64,
    push: u64,
) -> Seq<Declared> {
    Seq::new(
        n,
        |i: int|
            denoise_pass(
                i,
                accumulated,
                surface,
                pair,
                width,
                height,
                key,
                (push + i) as u64,
            ),
    )
}

/// Adds the filter passes. They share one pipeline.
pub fn add_denoise_passes<B: Fn(ShaderRole) -> SrResult<CachedPipeline>>(
    rg: &mut RenderGraph,
    frame: usize,
    spirv: &Vec<u8>,
    accum_in: &Handle<Image>,
    images: &FrameImages,
    pair: &[Handle<Image>; 2],
    width: u32,
    height: u32,
    push: u64,
    build: &B,
) -> (r: SrResult<()>)
    requires
        old(rg).slots_wf(),
        old(rg).pipeline_caches[slot_of(frame as int)].entries.len() + DENOISE_PASSES <= u32::MAX,
        old(rg).next_pass_id + DENOISE_PASSES <= u32::MAX,
        push + DENOISE_PASSES <= u64::MAX,
        build.requires((ShaderRole::Denoise,)),
    ensures
        final(rg).slots_wf(),
        ({
            let ds = denoise_passes(
                DENOISE_PASSES as nat,
                accum_in.id,
                (images.depth.id, images.normal.id, images.diffuse.id),
                (pair[0].id, pair[1].id),
                width,
                height,
                compute_key(spirv@),
                push,
            );
            match r {
                Ok(_) => passes_added(*old(rg), *final(rg), frame, ds, *build),
                Err(e) => pass_refused(*old(rg), *final(rg), frame, ds[0], *build, e),
            }
        }),
{
    let ghost before = *rg;
    let ghost surface = (images.depth.id, images.normal.id, images.diffuse.id);
    let ghost pair_ids = (pair[0].id, pair[1].id);
    let ghost key = compute_key(spirv@);
    let ghost ds = denoise_passes(
        DENOISE_PASSES as nat,
        accum_in.id,
        surface,
        pair_ids,
        width,
        height,
        key,
        push,
    );
    proof {
        lemma_nothing_added(before, frame, *build);
        assert(ds.take(0) =~= Seq::empty());
    }
    let mut pass_index: u32 = 0;
    while pass_index < DENOISE_PASSES
        invariant
            pass_index <= DENOISE_PASSES,
            before.slots_wf(),
            rg.slots_wf(),
            surface == (images.depth.id, images.normal.id, images.diffuse.id),
            pair_ids == (pair[0].id, pair[1].id),
            key == compute_key(spirv@),
            before.pipeline_caches[slot_of(frame as int)].entries.len() + DENOISE_PASSES
                <= u32::MAX,
            before.next_pass_id + DENOISE_PASSES <= u32::MAX,
            push + DENOISE_PASSES <= u64::MAX,
            build.requires((ShaderRole::Denoise,)),
            ds == denoise_passes(
                DENOISE_PASSES as nat,
                accum_in.id,
                surface,
                pair_ids,
                width,
                height,
                key,
                push,
            ),
            passes_added(before, *rg, frame, ds.take(pass_index as int), *build),
            pass_index == 0 ==> *rg == before,
            before == *old(rg),
        decreases DENOISE_PASSES - pass_index,
    {
        let ghost here = *rg;
        let ghost d = ds[pass_index as int];
        proof {
            law_pipelines_are_built_once(cache_of(before, frame).by_key@, ds.take(pass_index as int));
        }
        let (read, write) = if pass_index == 0 {
            (accum_in, &pair[0])
        } else if pass_index % 2 == 1 {
            (&pair[0], &pair[1])
        } else {
            (&pair[1], &pair[0])
        };
        let mut name = String::from_str("denoise_");
        push_decimal(&mut name, pass_index as u64);
        let mut common = PassCommonDataBuilder::new(rg, name.as_str());
        common.read(read, AccessType::ComputeShaderReadOther)?;
        common.write(write, AccessType::ComputeShaderWrite)?;
        if pass_index == 0 {
            common.read(
                &images.depth,
                AccessType::ComputeShaderReadSampledImageOrUniformTexelBuffer,
            )?;
            common.read(
                &images.normal,
                AccessType::ComputeShaderReadSampledImageOrUniformTexelBuffer,
            )?;
            common.read(
                &images.diffuse,
                AccessType::ComputeShaderReadSampledImageOrUniformTexelBuffer,
            )?;
        }
        let common = common.build();
        proof {
            assert(common.read@ =~= d.reads);
            assert(common.write@ =~= d.writes);
        }
        let added = add_compute_pass(
            rg,
            frame,
            common,
            spirv,
            (group_count(width), group_count(height), 1),
            push + pass_index as u64,
            ShaderRole::Denoise,
            build,
            "denoise",
            Ghost(d),
            Ghost(here),
        );
        match added {
            Ok(_) => {
                proof {
                    lemma_one_more(before, here, *rg, frame, ds, pass_index as int, *build);
                }
            },
            Err(e) => {
                proof {
                    if pass_index > 0 {
                        assert(ds.take(pass_index as int)[0].key == d.key);
                        assert(has_key(ds.take(pass_index as int), d.key));
                    }
                }
                return Err(e);
            },
        }
        pass_index = pass_index + 1;
    }
    proof {
        assert(ds.take(DENOISE_PASSES as int) =~= ds);
    }
    Ok(())
}

// ---------------------------------------------------------------------------
// The frame
// ---------------------------------------------------------------------------

// Formats and usages by their Vulkan numbers.
pub const FORMAT_B10G11R11_UFLOAT_PACK32: i32 = 122;
pub const FORMAT_R16_SFLOAT: i32 = 76;
pub const FORMAT_R16G16_SFLOAT: i32 = 83;
pub const FORMAT_R8G8B8A8_SNORM: i32 = 38;
pub const FORMAT_R8G8B8A8_SRGB: i32 = 43;
pub const TILING_OPTIMAL: i32 = 0;
pub const IMAGE_USAGE_SAMPLED: u32 = 0x4;
pub const IMAGE_USAGE_STORAGE: u32 = 0x8;

/// The compiled shaders of the frame.
#[derive(Debug)]
pub struct ShaderCode {
    pub ray_gen_ris: Vec<u8>,
    pub ray_gen_final: Vec<u8>,
    pub ray_miss: Vec<u8>,
    pub closest_hit: Vec<u8>,
    pub any_hit: Vec<u8>,
    pub temporal_accumulation: Vec<u8>,
    pub denoise: Vec<u8>,
    pub postprocess: Vec<u8>,
}

impl ShaderCode {
    /// The key of the pipeline that looks for light.
    pub open spec fn ris_key(self) -> u64 {
        raytracing_key(self.ray_gen_ris@, self.ray_miss@, self.closest_hit@, self.any_hit@)
    }

    /// The key of the pipeline that shades. It differs in the first stage alone.
    pub open spec fn final_key(self) -> u64 {
        raytracing_key(self.ray_gen_final@, self.ray_miss@, self.closest_hit@, self.any_hit@)
    }
}

/// What lives across frames.
pub struct TemporalTokens {
    pub accumulation: ExportedTemporalResource<Image>,
    pub denoising: ExportedTemporalResource<Image>,
    pub reservoir: ExportedTemporalResource<RawBuffer>,
    pub reservoir_gi: ExportedTemporalResource<RawBuffer>,
}

/// The push data of a pass: the images by their numbers, and plain numbers.
#[derive(Clone, Copy, Debug, PartialEq, Eq)]
pub enum PushData {
    /// Both ray-tracing passes push the same. The count decides which of the reservoirs are
    /// this frame's.
    Raytracing {
        raw_color: u32,
        depth: u32,
        normal: u32,
        diffuse: u32,
        motion: u32,
        frame_count: u32,
        use_srgb: bool,
    },
    TemporalAccumulation {
        raw_color: u32,
        motion: u32,
        history: u32,
        accum_output: u32,
        frame_count: u32,
        width: u32,
        height: u32,
    },
    Denoise {
        temporal_result: u32,
        depth: u32,
        normal: u32,
        diffuse: u32,
        spatial_output: u32,
        frame_count: u32,
        step_width: i32,
        width: u32,
        height: u32,
    },
    Postprocess { input: u32, output: u32 },
}

/// A frame that was declared: what to show, and the push data of its passes in order.
pub struct FrameDeclaration {
    pub source: Handle<Image>,
    pub pushes: Vec<PushData>,
}

/// An image of the frame's own.
pub open spec fn frame_image(
    extent: (u32, u32, u32),
    format: i32,
    usage: u32,
    name: &'static str,
) -> ImageDesc {
    ImageDesc {
        extent,
        format,
        tiling: TILING_OPTIMAL,
        location: MemoryLocation::GpuOnly,
        usage,
        name,
    }
}

fn make_image(
    extent: (u32, u32, u32),
    format: i32,
    usage: u32,
    name: &'static str,
) -> (desc: ImageDesc)
    ensures
        desc == frame_image(extent, format, usage, name),
{
    ImageDesc {
        extent,
        format,
        tiling: TILING_OPTIMAL,
        location: MemoryLocation::GpuOnly,
        usage,
        name,
    }
}

/// The images that the frame creates, in order.
pub open spec fn frame_images(extent: (u32, u32, u32)) -> Seq<ImageDesc> {
    let both = IMAGE_USAGE_STORAGE | IMAGE_USAGE_SAMPLED;
    seq![
        frame_image(
            extent,
            FORMAT_B10G11R11_UFLOAT_PACK32,
            IMAGE_USAGE_STORAGE,
            "rg_rt_raw_color",
        ),
        frame_image(extent, FORMAT_R16_SFLOAT, both, "rg_depth"),
        frame_image(extent, FORMAT_R8G8B8A8_SNORM, both, "rg_normal"),
        frame_image(extent, FORMAT_B10G11R11_UFLOAT_PACK32, both, "rg_diffuse"),
        frame_image(extent, FORMAT_R16G16_SFLOAT, IMAGE_USAGE_STORAGE, "rg_motion_vec"),
    ]
}

/// Which copy of the accumulated image a frame writes.
pub open spec fn accum_target(frame_count: int) -> int {
    frame_count % 2
}

/// Which copy of the accumulated image a frame reads.
pub open spec fn accum_history(frame_count: int) -> int {
    (frame_count + 1) % 2
}

/// The step between the pixels that a filter pass looks at.
pub open spec fn step_width(i: int) -> int {
    vstd::arithmetic::power2::pow2(i as nat) as int
}

/// How many resources a frame adds.
pub const FRAME_RESOURCES: u32 = 14;

/// How many passes a frame adds: two that trace rays, the temporal one, the filters and
/// the last one.
pub const FRAME_PASSES: u32 = DENOISE_PASSES + 4;

/// The passes of a frame whose first resource has the number `base`.
pub open spec fn frame_passes(
    base: int,
    arenas: Seq<u32>,
    tlas: u32,
    frame_count: int,
    extent: (u32, u32, u32),
    shaders: ShaderCode,
) -> Seq<Declared> {
    let id = |i: int| (base + i) as u32;
    let rays = RayIds {
        images: seq![id(0), id(1), id(2), id(3), id(4)],
        reservoirs: seq![id(10), id(11), id(12), id(13)],
        arenas,
        tlas,
    };
    let target = id(5 + accum_target(frame_count));
    let history = id(5 + accum_history(frame_count));
    let pair = (id(7), id(8));
    seq![
        ris_pass(rays, extent, shaders.ris_key(), 0),
        final_pass(rays, extent, shaders.final_key(), 1),
        temporal_pass(
            id(0),
            id(4),
            history,
            target,
            extent.0,
            extent.1,
            compute_key(shaders.temporal_accumulation@),
            2,
        ),
    ] + denoise_passes(
        DENOISE_PASSES as nat,
        target,
        (id(1), id(2), id(3)),
        pair,
        extent.0,
        extent.1,
        compute_key(shaders.denoise@),
        3,
    ) + seq![
        postprocess_pass(
            denoise_output(DENOISE_PASSES - 1, pair),
            id(9),
            extent.0,
            extent.1,
            compute_key(shaders.postprocess@),
            (3 + DENOISE_PASSES) as u64,
        ),
    ]
}

/// The push data of a frame whose first resource has the number `base`.
pub open spec fn frame_pushes(
    base: int,
    frame_count: u32,
    extent: (u32, u32, u32),
    image_format: i32,
) -> Seq<PushData> {
    let id = |i: int| (base + i) as u32;
    let rays = PushData::Raytracing {
        raw_color: id(0),
        depth: id(1),
        normal: id(2),
        diffuse: id(3),
        motion: id(4),
        frame_count,
        use_srgb: image_format == FORMAT_R8G8B8A8_SRGB,
    };
    let target = id(5 + accum_target(frame_count as int));
    let history = id(5 + accum_history(frame_count as int));
    let pair = (id(7), id(8));
    seq![
        rays,
        rays,
        PushData::TemporalAccumulation {
            raw_color: id(0),
            motion: id(4),
            history,
            accum_output: target,
            frame_count,
            width: extent.0,
            height: extent.1,
        },
    ] + Seq::new(
        DENOISE_PASSES as nat,
        |i: int|
            PushData::Denoise {
                temporal_result: denoise_input(i, target, pair),
                depth: id(1),
                normal: id(2),
                diffuse: id(3),
                spatial_output: denoise_output(i, pair),
                frame_count,
                step_width: step_width(i) as i32,
                width: extent.0,
                height: extent.1,
            },
    ) + seq![
        PushData::Postprocess { input: denoise_output(DENOISE_PASSES - 1, pair), output: id(9) },
    ]
}

/// Whether the resources of a frame were added: the images of its own, the two copies of
/// each of the images that live on, what is shown, and the two copies of each kind of
/// reservoir. What is shown is a result of the frame.
pub open spec fn resources_added(
    before: RenderGraph,
    after: RenderGraph,
    temporal: TemporalTokens,
    extent: (u32, u32, u32),
    shown: GraphResourceImportInfo,
) -> bool {
    let first = before.virtual_resources@.len() as int;
    let added = |i: int| after.virtual_resources@[first + i];
    let copy = |index: usize, i: int| before.temporal_resources[index as int].imports[i]@;
    &&& after.virtual_resources@.len() == first + FRAME_RESOURCES
    &&& after.virtual_resources@.take(first) == before.virtual_resources@
    &&& after.next_resource_id == before.next_resource_id + FRAME_RESOURCES
    &&& forall|i: int|
        0 <= i < 5 ==> #[trigger] after.virtual_resources@[first + i]
            == GraphResourceInfo::Created(GraphResourceDesc::Image(frame_images(extent)[i]))
    &&& imports_as(added(5), copy(temporal.accumulation.index, 0))
    &&& imports_as(added(6), copy(temporal.accumulation.index, 1))
    &&& imports_as(added(7), copy(temporal.denoising.index, 0))
    &&& imports_as(added(8), copy(temporal.denoising.index, 1))
    &&& added(9) == GraphResourceInfo::Imported(shown)
    &&& imports_as(added(10), copy(temporal.reservoir.index, 0))
    &&& imports_as(added(11), copy(temporal.reservoir.index, 1))
    &&& imports_as(added(12), copy(temporal.reservoir_gi.index, 0))
    &&& imports_as(added(13), copy(temporal.reservoir_gi.index, 1))
    &&& after.registered_temporal@ == before.registered_temporal@ + registrations(
        before.next_resource_id as int,
        temporal,
    )
    &&& after.output_resources@ == before.output_resources@.insert(
        (before.next_resource_id + 9) as u32,
    )
}

/// The temporal copies of a frame, with their numbers.
pub open spec fn registrations(base: int, temporal: TemporalTokens) -> Seq<(usize, usize, u32)> {
    seq![
        (temporal.accumulation.index, 0, (base + 5) as u32),
        (temporal.accumulation.index, 1, (base + 6) as u32),
        (temporal.denoising.index, 0, (base + 7) as u32),
        (temporal.denoising.index, 1, (base + 8) as u32),
        (temporal.reservoir.index, 0, (base + 10) as u32),
        (temporal.reservoir.index, 1, (base + 11) as u32),
        (temporal.reservoir_gi.index, 0, (base + 12) as u32),
        (temporal.reservoir_gi.index, 1, (base + 13) as u32),
    ]
}

/// The handles of what a frame adds.
struct FrameHandles {
    images: FrameImages,
    accumulation: [Handle<Image>; 2],
    denoising: [Handle<Image>; 2],
    shown: Handle<Image>,
    reservoirs: [Handle<RawBuffer>; 2],
    reservoirs_gi: [Handle<RawBuffer>; 2],
}

/// Whether handles lead to the resources of a frame.
spec fn handles_lead(handles: FrameHandles, base: int) -> bool {
    &&& handles.images.raw_color.id == base
    &&& handles.images.depth.id == base + 1
    &&& handles.images.normal.id == base + 2
    &&& handles.images.diffuse.id == base + 3
    &&& handles.images.motion.id == base + 4
    &&& handles.accumulation[0].id == base + 5
    &&& handles.accumulation[1].id == base + 6
    &&& handles.denoising[0].id == base + 7
    &&& handles.denoising[1].id == base + 8
    &&& handles.shown.id == base + 9
    &&& handles.reservoirs[0].id == base + 10
    &&& handles.reservoirs[1].id == base + 11
    &&& handles.reservoirs_gi[0].id == base + 12
    &&& handles.reservoirs_gi[1].id == base + 13
}

/// Whether the graph holds what lives across frames.
pub open spec fn temporals_given(rg: RenderGraph, temporal: TemporalTokens) -> bool {
    &&& rg.holds_temporal(temporal.accumulation.index as int)
    &&& rg.holds_temporal(temporal.denoising.index as int)
    &&& rg.holds_temporal(temporal.reservoir.index as int)
    &&& rg.holds_temporal(temporal.reservoir_gi.index as int)
}

/// Adds the resources of a frame.
fn add_frame_resources(
    rg: &mut RenderGraph,
    temporal: &TemporalTokens,
    extent: (u32, u32, u32),
    shown_desc: ImageDesc,
    shown: GraphResourceImportInfo,
) -> (handles: FrameHandles)
    requires
        old(rg).next_resource_id + FRAME_RESOURCES <= u32::MAX,
        temporals_given(*old(rg), *temporal),
    ensures
        resources_added(*old(rg), *final(rg), *temporal, extent, shown),
        *final(rg) == (RenderGraph {
            virtual_resources: final(rg).virtual_resources,
            next_resource_id: final(rg).next_resource_id,
            registered_temporal: final(rg).registered_temporal,
            output_resources: final(rg).output_resources,
            ..*old(rg)
        }),
        handles_lead(handles, old(rg).next_resource_id as int),
        old(rg).ids_are_indices() ==> final(rg).ids_are_indices(),
        handles.shown.desc == shown_desc,
{
    let ghost first = rg.virtual_resources@.len() as int;
    let raw_color = rg.create_resource(
        make_image(
            extent,
            FORMAT_B10G11R11_UFLOAT_PACK32,
            IMAGE_USAGE_STORAGE,
            "rg_rt_raw_color",
        ),
    );
    let ghost g1 = *rg;
    let depth = rg.create_resource(
        make_image(
            extent,
            FORMAT_R16_SFLOAT,
            IMAGE_USAGE_STORAGE | IMAGE_USAGE_SAMPLED,
            "rg_depth",
        ),
    );
    let ghost g2 = *rg;
    let normal = rg.create_resource(
        make_image(
            extent,
            FORMAT_R8G8B8A8_SNORM,
            IMAGE_USAGE_STORAGE | IMAGE_USAGE_SAMPLED,
            "rg_normal",
        ),
    );
    let ghost g3 = *rg;
    let diffuse = rg.create_resource(
        make_image(
            extent,
            FORMAT_B10G11R11_UFLOAT_PACK32,
            IMAGE_USAGE_STORAGE | IMAGE_USAGE_SAMPLED,
            "rg_diffuse",
        ),
    );
    let ghost g4 = *rg;
    let motion = rg.create_resource(
        make_image(extent, FORMAT_R16G16_SFLOAT, IMAGE_USAGE_STORAGE, "rg_motion_vec"),
    );
    let ghost g5 = *rg;
    proof {
        lemma_grew(old(rg).virtual_resources@, g1.virtual_resources@);
        lemma_grew(g1.virtual_resources@, g2.virtual_resources@);
        lemma_grew(g2.virtual_resources@, g3.virtual_resources@);
        lemma_grew(g3.virtual_resources@, g4.virtual_resources@);
        lemma_grew(g4.virtual_resources@, g5.virtual_resources@);
    }
    let accumulation = rg.register_temporal_resource(&temporal.accumulation);
    let ghost g7 = *rg;
    let denoising = rg.register_temporal_resource(&temporal.denoising);
    let ghost g9 = *rg;
    let shown_handle = rg.import(shown_desc, shown);
    let ghost g10 = *rg;
    let reservoirs = rg.register_temporal_resource(&temporal.reservoir);
    let ghost g12 = *rg;
    let reservoirs_gi = rg.register_temporal_resource(&temporal.reservoir_gi);
    rg.mark_output(&shown_handle);
    proof {
        let end = rg.virtual_resources@;
        lemma_kept(g5.virtual_resources@, g7.virtual_resources@);
        lemma_kept(g7.virtual_resources@, g9.virtual_resources@);
        lemma_grew(g9.virtual_resources@, g10.virtual_resources@);
        lemma_kept(g10.virtual_resources@, g12.virtual_resources@);
        lemma_kept(g12.virtual_resources@, end);
        assert(end.take(first) =~= old(rg).virtual_resources@);
        assert(end[first] == g1.virtual_resources@.last());
        assert(end[first + 1] == g2.virtual_resources@.last());
        assert(end[first + 2] == g3.virtual_resources@.last());
        assert(end[first + 3] == g4.virtual_resources@.last());
        assert(end[first + 4] == g5.virtual_resources@.last());
        assert(end[first + 5] == g7.virtual_resources@[g5.virtual_resources@.len() + 0int]);
        assert(end[first + 6] == g7.virtual_resources@[g5.virtual_resources@.len() + 1int]);
        assert(end[first + 7] == g9.virtual_resources@[g7.virtual_resources@.len() + 0int]);
        assert(end[first + 8] == g9.virtual_resources@[g7.virtual_resources@.len() + 1int]);
        assert(end[first + 9] == g10.virtual_resources@.last());
        assert(end[first + 10] == g12.virtual_resources@[g10.virtual_resources@.len() + 0int]);
        assert(end[first + 11] == g12.virtual_resources@[g10.virtual_resources@.len() + 1int]);
        assert(end[first + 12] == end[g12.virtual_resources@.len() + 0int]);
        assert(end[first + 13] == end[g12.virtual_resources@.len() + 1int]);
        assert(rg.registered_temporal@ =~= old(rg).registered_temporal@ + registrations(
            old(rg).next_resource_id as int,
            *temporal,
        ));
    }
    FrameHandles {
        images: FrameImages { raw_color, depth, normal, diffuse, motion },
        accumulation,
        denoising,
        shown: shown_handle,
        reservoirs,
        reservoirs_gi,
    }
}

/// A list that gained one more at its end.
proof fn lemma_grew<T>(before: Seq<T>, after: Seq<T>)
    requires
        after.len() == before.len() + 1,
        after.drop_last() == before,
    ensures
        forall|i: int| 0 <= i < before.len() ==> #[trigger] after[i] == before[i],
{
    assert forall|i: int| 0 <= i < before.len() implies #[trigger] after[i] == before[i] by {
        assert(after.drop_last()[i] == before[i]);
    }
}

/// A list that gained more at its end.
proof fn lemma_kept<T>(before: Seq<T>, after: Seq<T>)
    requires
        before.len() <= after.len(),
        after.take(before.len() as int) == before,
    ensures
        forall|i: int| 0 <= i < before.len() ==> #[trigger] after[i] == before[i],
{
    assert forall|i: int| 0 <= i < before.len() implies #[trigger] after[i] == before[i] by {
        assert(after.take(before.len() as int)[i] == before[i]);
    }
}

/// The push data of a frame.
fn frame_push_data(
    handles: &FrameHandles,
    frame_count: u32,
    extent: (u32, u32, u32),
    image_format: i32,
    Ghost(base): Ghost<int>,
) -> (pushes: Vec<PushData>)
    requires
        handles_lead(*handles, base),
        0 <= base <= u32::MAX - FRAME_RESOURCES,
    ensures
        pushes@ == frame_pushes(base, frame_count, extent, image_format),
{
    let (width, height, _) = extent;
    let images = &handles.images;
    let rays = PushData::Raytracing {
        raw_color: images.raw_color.id,
        depth: images.depth.id,
        normal: images.normal.id,
        diffuse: images.diffuse.id,
        motion: images.motion.id,
        frame_count,
        use_srgb: image_format == FORMAT_R8G8B8A8_SRGB,
    };
    let (target, history): (u32, u32) = if frame_count % 2 == 0 {
        (handles.accumulation[0].id, handles.accumulation[1].id)
    } else {
        (handles.accumulation[1].id, handles.accumulation[0].id)
    };
    let ghost all = frame_pushes(base, frame_count, extent, image_format);
    let mut pushes: Vec<PushData> = Vec::new();
    pushes.push(rays);
    pushes.push(rays);
    pushes.push(
        PushData::TemporalAccumulation {
            raw_color: images.raw_color.id,
            motion: images.motion.id,
            history,
            accum_output: target,
            frame_count,
            width,
            height,
        },
    );
    let mut pass_index: u32 = 0;
    let mut step: i32 = 1;
    proof {
        vstd::arithmetic::power2::lemma2_to64();
        assert(pushes@ =~= all.take(3));
    }
    while pass_index < DENOISE_PASSES
        invariant
            pass_index <= DENOISE_PASSES,
            step == step_width(pass_index as int),
            handles_lead(*handles, base),
            0 <= base <= u32::MAX - FRAME_RESOURCES,
            images == &handles.images,
            width == extent.0,
            height == extent.1,
            target == (base + 5 + accum_target(frame_count as int)) as u32,
            all == frame_pushes(base, frame_count, extent, image_format),
            pushes@ == all.take(3 + pass_index),
        decreases DENOISE_PASSES - pass_index,
    {
        let (input, output): (u32, u32) = if pass_index == 0 {
            (target, handles.denoising[0].id)
        } else if pass_index % 2 == 1 {
            (handles.denoising[0].id, handles.denoising[1].id)
        } else {
            (handles.denoising[1].id, handles.denoising[0].id)
        };
        proof {
            vstd::arithmetic::power2::lemma2_to64();
        }
        pushes.push(
            PushData::Denoise {
                temporal_result: input,
                depth: images.depth.id,
                normal: images.normal.id,
                diffuse: images.diffuse.id,
                spatial_output: output,
                frame_count,
                step_width: step,
                width,
                height,
            },
        );
        proof {
            assert(pushes@.last() == all[3 + pass_index]);
            assert(pushes@ =~= all.take(3 + pass_index + 1));
        }
        step = step * 2;
        pass_index = pass_index + 1;
    }
    let last: u32 = if (DENOISE_PASSES - 1) % 2 == 0 {
        handles.denoising[0].id
    } else {
        handles.denoising[1].id
    };
    pushes.push(PushData::Postprocess { input: last, output: handles.shown.id });
    proof {
        assert(pushes@ =~= all);
    }
    pushes
}

/// `before` with the resources of `after`, and with its results.
pub open spec fn with_resources_of(before: RenderGraph, after: RenderGraph) -> RenderGraph {
    RenderGraph {
        virtual_resources: after.virtual_resources,
        next_resource_id: after.next_resource_id,
        registered_temporal: after.registered_temporal,
        output_resources: after.output_resources,
        ..before
    }
}

/// Whether a frame was declared: its resources and passes stand in the graph behind what
/// was there, what is shown is among its results, every pass has the pipeline of its key,
/// and nothing else has changed.
pub open spec fn frame_declared<B: Fn(ShaderRole) -> SrResult<CachedPipeline>>(
    before: RenderGraph,
    after: RenderGraph,
    frame: usize,
    frame_count: u32,
    shaders: ShaderCode,
    temporal: TemporalTokens,
    extent: (u32, u32, u32),
    shown: GraphResourceImportInfo,
    arenas: Seq<u32>,
    tlas: u32,
    build: B,
) -> bool {
    let base = before.next_resource_id as int;
    let ds = frame_passes(base, arenas, tlas, frame_count as int, extent, shaders);
    &&& resources_added(before, after, temporal, extent, shown)
    &&& passes_added(with_resources_of(before, after), after, frame, ds, build)
}

/// Whether declaring a frame came to an end at its `n`-th pass, whose pipeline is not known
/// and could not be built: the resources and the passes before it stand in the graph.
pub open spec fn frame_stopped<B: Fn(ShaderRole) -> SrResult<CachedPipeline>>(
    before: RenderGraph,
    after: RenderGraph,
    frame: usize,
    frame_count: u32,
    shaders: ShaderCode,
    temporal: TemporalTokens,
    extent: (u32, u32, u32),
    shown: GraphResourceImportInfo,
    arenas: Seq<u32>,
    tlas: u32,
    build: B,
    n: int,
    e: SrError,
) -> bool {
    let base = before.next_resource_id as int;
    let ds = frame_passes(base, arenas, tlas, frame_count as int, extent, shaders);
    &&& resources_added(before, after, temporal, extent, shown)
    &&& passes_stopped(with_resources_of(before, after), after, frame, ds, n, build, e)
}

/// Declares a frame: its images, what lives across frames, what is shown, and its
/// passes. `shown` is what the last pass writes. The arenas and the scene are resources
/// of the same graph.
///
/// What is shown is a result of the frame: the pass that writes it is kept, and what that
/// needs.
///
/// Fails where a pipeline that is not known cannot be built, and only there.
pub fn build_unified_graph<B: Fn(ShaderRole) -> SrResult<CachedPipeline>>(
    rg: &mut RenderGraph,
    frame: usize,
    frame_count: u32,
    shaders: &ShaderCode,
    temporal: &TemporalTokens,
    extent: (u32, u32, u32),
    image_format: i32,
    shown_desc: ImageDesc,
    shown: GraphResourceImportInfo,
    arenas: [Handle<RawBuffer>; 2],
    tlas: Handle<AccelerationStructure>,
    build: &B,
) -> (r: SrResult<FrameDeclaration>)
    requires
        old(rg).slots_wf(),
        old(rg).next_resource_id + FRAME_RESOURCES <= u32::MAX,
        old(rg).next_pass_id + FRAME_PASSES <= u32::MAX,
        old(rg).pipeline_caches[slot_of(frame as int)].entries.len() + FRAME_PASSES <= u32::MAX,
        temporals_given(*old(rg), *temporal),
        forall|role: ShaderRole| #[trigger] build.requires((role,)),
    ensures
        final(rg).slots_wf(),
        match r {
            Ok(declared) => {
                &&& frame_declared(
                    *old(rg),
                    *final(rg),
                    frame,
                    frame_count,
                    *shaders,
                    *temporal,
                    extent,
                    shown,
                    arena_ids(arenas),
                    tlas.id,
                    *build,
                )
                &&& declared.source.id == old(rg).next_resource_id + 9
                &&& declared.source.desc == shown_desc
                &&& declared.pushes@ == frame_pushes(
                    old(rg).next_resource_id as int,
                    frame_count,
                    extent,
                    image_format,
                )
            },
            Err(e) => exists|n: int| #[trigger]
                frame_stopped(
                    *old(rg),
                    *final(rg),
                    frame,
                    frame_count,
                    *shaders,
                    *temporal,
                    extent,
                    shown,
                    arena_ids(arenas),
                    tlas.id,
                    *build,
                    n,
                    e,
                ),
        },
        old(rg).ids_are_indices() ==> final(rg).ids_are_indices(),
{
    let ghost base = rg.next_resource_id as int;
    let (width, height, _) = extent;
    let handles = add_frame_resources(rg, temporal, extent, shown_desc, shown);
    let ghost resourceful = *rg;
    let pushes = frame_push_data(&handles, frame_count, extent, image_format, Ghost(base));
    let FrameHandles { images, accumulation, denoising, shown: source, reservoirs, reservoirs_gi } =
        handles;
    let buffers = FrameBuffers { reservoirs, reservoirs_gi, arenas, tlas };
    let ghost all = frame_passes(
        base,
        arena_ids(arenas),
        tlas.id,
        frame_count as int,
        extent,
        *shaders,
    );
    let ghost rays = ray_ids(images, buffers);
    let ghost stopped = |after: RenderGraph, n: int, e: SrError|
        frame_stopped(
            *old(rg),
            after,
            frame,
            frame_count,
            *shaders,
            *temporal,
            extent,
            shown,
            arena_ids(arenas),
            tlas.id,
            *build,
            n,
            e,
        );
    proof {
        lemma_nothing_added(resourceful, frame, *build);
        assert(all.take(0) =~= Seq::empty());
        let id = |i: int| (base + i) as u32;
        assert(rays.images =~= seq![id(0), id(1), id(2), id(3), id(4)]);
        assert(rays.reservoirs =~= seq![id(10), id(11), id(12), id(13)]);
        assert(all.len() == FRAME_PASSES);
    }
    let ris = RayCode {
        ray_gen: &shaders.ray_gen_ris,
        miss: &shaders.ray_miss,
        closest_hit: &shaders.closest_hit,
        any_hit: &shaders.any_hit,
    };
    let shading = RayCode {
        ray_gen: &shaders.ray_gen_final,
        miss: &shaders.ray_miss,
        closest_hit: &shaders.closest_hit,
        any_hit: &shaders.any_hit,
    };
    let outcome = add_raytracing_ris_pass(rg, frame, &ris, &images, &buffers, extent, 0, build);
    if let Err(e) = outcome {
        proof {
            lemma_stopped(resourceful, resourceful, *rg, frame, all, 0, *build, e);
            assert(with_resources_of(*old(rg), *rg) == resourceful);
            assert(stopped(*rg, 0, e));
        }
        return Err(e);
    }
    let ghost g1 = *rg;
    proof {
        lemma_one_more(resourceful, resourceful, g1, frame, all, 0, *build);
    }
    proof {
        law_pipelines_are_built_once(cache_of(resourceful, frame).by_key@, all.take(1));
    }
    let outcome = add_raytracing_final_pass(rg, frame, &shading, &images, &buffers, extent, 1, build);
    if let Err(e) = outcome {
        proof {
            lemma_stopped(resourceful, g1, *rg, frame, all, 1, *build, e);
            assert(with_resources_of(*old(rg), *rg) == resourceful);
            assert(stopped(*rg, 1, e));
        }
        return Err(e);
    }
    let ghost g2 = *rg;
    proof {
        lemma_one_more(resourceful, g1, g2, frame, all, 1, *build);
    }
    let (target, history) = if frame_count % 2 == 0 {
        (&accumulation[0], &accumulation[1])
    } else {
        (&accumulation[1], &accumulation[0])
    };
    proof {
        law_pipelines_are_built_once(cache_of(resourceful, frame).by_key@, all.take(2));
    }
    let outcome = add_temporal_pass(
        rg,
        frame,
        &shaders.temporal_accumulation,
        &images.raw_color,
        &images.motion,
        history,
        target,
        width,
        height,
        2,
        build,
    );
    if let Err(e) = outcome {
        proof {
            lemma_stopped(resourceful, g2, *rg, frame, all, 2, *build, e);
            assert(with_resources_of(*old(rg), *rg) == resourceful);
            assert(stopped(*rg, 2, e));
        }
        return Err(e);
    }
    let ghost g3 = *rg;
    proof {
        lemma_one_more(resourceful, g2, g3, frame, all, 2, *build);
    }
    let ghost filters = denoise_passes(
        DENOISE_PASSES as nat,
        target.id,
        (images.depth.id, images.normal.id, images.diffuse.id),
        (denoising[0].id, denoising[1].id),
        width,
        height,
        compute_key(shaders.denoise@),
        3,
    );
    proof {
        law_pipelines_are_built_once(cache_of(resourceful, frame).by_key@, all.take(3));
        assert(filters =~= all.subrange(3, 3 + DENOISE_PASSES));
    }
    let outcome = add_denoise_passes(
        rg,
        frame,
        &shaders.denoise,
        target,
        &images,
        &denoising,
        width,
        height,
        3,
        build,
    );
    if let Err(e) = outcome {
        proof {
            lemma_stopped(resourceful, g3, *rg, frame, all, 3, *build, e);
            assert(with_resources_of(*old(rg), *rg) == resourceful);
            assert(stopped(*rg, 3, e));
        }
        return Err(e);
    }
    let ghost filtered = *rg;
    proof {
        lemma_many_more(resourceful, g3, filtered, frame, all.take(3), filters, *build);
        assert(all.take(3) + filters =~= all.take(3 + DENOISE_PASSES));
    }
    let denoised = if (DENOISE_PASSES - 1) % 2 == 0 {
        &denoising[0]
    } else {
        &denoising[1]
    };
    proof {
        law_pipelines_are_built_once(cache_of(resourceful, frame).by_key@, all.take(3 + DENOISE_PASSES));
    }
    let outcome = add_postprocess_pass(
        rg,
        frame,
        &shaders.postprocess,
        denoised,
        &source,
        width,
        height,
        3 + DENOISE_PASSES as u64,
        build,
    );
    if let Err(e) = outcome {
        proof {
            lemma_stopped(resourceful, filtered, *rg, frame, all, 3 + DENOISE_PASSES, *build, e);
            assert(with_resources_of(*old(rg), *rg) == resourceful);
            assert(stopped(*rg, 3 + DENOISE_PASSES, e));
        }
        return Err(e);
    }
    proof {
        let n = 3 + DENOISE_PASSES;
        lemma_one_more(resourceful, filtered, *rg, frame, all, n, *build);
        assert(all.take(n + 1) =~= all);
        assert(with_resources_of(*old(rg), *rg) == resourceful);
    }
    Ok(FrameDeclaration { source, pushes })
}

// ---------------------------------------------------------------------------
// Laws
// ---------------------------------------------------------------------------

/// Whether a pass declares a read of a resource.
pub open spec fn reads_id(d: Declared, id: u32) -> bool {
    exists|i: int| 0 <= i < d.reads.len() && (#[trigger] d.reads[i]).id == id
}

/// Whether a pass declares a write of a resource.
pub open spec fn writes_id(d: Declared, id: u32) -> bool {
    exists|i: int| 0 <= i < d.writes.len() && (#[trigger] d.writes[i]).id == id
}

/// The accumulated image that a frame reads is the one that the frame before wrote, and
/// no frame reads the one it writes.
pub proof fn law_history_is_what_the_last_frame_wrote(frame_count: nat)
    ensures
        accum_history(frame_count as int + 1) == accum_target(frame_count as int),
        accum_history(frame_count as int) != accum_target(frame_count as int),
{
}

/// Each filter pass reads what the one before wrote, the first what temporal
/// accumulation wrote, and tone mapping what the last one wrote. No pass of these reads
/// the image it writes.
pub proof fn law_filters_form_a_chain(
    base: int,
    arenas: Seq<u32>,
    tlas: u32,
    frame_count: nat,
    extent: (u32, u32, u32),
    shaders: ShaderCode,
    i: int,
)
    requires
        0 <= base <= u32::MAX - FRAME_RESOURCES,
        3 <= i < FRAME_PASSES,
    ensures
        ({
            let passes = frame_passes(base, arenas, tlas, frame_count as int, extent, shaders);
            &&& passes.len() == FRAME_PASSES
            &&& passes[i - 1].writes.len() == 1
            &&& reads_id(passes[i], passes[i - 1].writes[0].id)
            &&& !reads_id(passes[i], passes[i].writes[0].id)
        }),
{
    let passes = frame_passes(base, arenas, tlas, frame_count as int, extent, shaders);
    assert(passes[i].reads[0].id == passes[i - 1].writes[0].id);
    assert(forall|k: int| 0 <= k < passes[i].reads.len() ==> (#[trigger] passes[i].reads[k]).id
        != passes[i].writes[0].id);
}

/// The pass that shades reads every reservoir that the pass before it fills, and writes
/// the images that that pass wrote.
pub proof fn law_reservoirs_are_handed_over(
    base: int,
    arenas: Seq<u32>,
    tlas: u32,
    frame_count: nat,
    extent: (u32, u32, u32),
    shaders: ShaderCode,
    id: u32,
)
    requires
        0 <= base <= u32::MAX - FRAME_RESOURCES,
        writes_id(frame_passes(base, arenas, tlas, frame_count as int, extent, shaders)[0], id),
    ensures
        ({
            let shading = frame_passes(
                base,
                arenas,
                tlas,
                frame_count as int,
                extent,
                shaders,
            )[1];
            base + 10 <= id <= base + 13 && reads_id(shading, id) || base <= id <= base + 4
                && writes_id(shading, id)
        }),
{
    let passes = frame_passes(base, arenas, tlas, frame_count as int, extent, shaders);
    let first = passes[0];
    let shading = passes[1];
    let k = choose|k: int| 0 <= k < first.writes.len() && (#[trigger] first.writes[k]).id == id;
    if k < 5 {
        assert(shading.writes[k].id == id);
    } else {
        assert(shading.reads[1 + (k - 5)].id == id);
    }
}

} // verus!
