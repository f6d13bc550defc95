//! What declaring a frame promises: handles lead to what they were given for, passes
//! declare what they do, and pipelines are told apart by what they are made from.

use std::collections::hash_map::DefaultHasher;

use vk_sync_fork::AccessType;
use vstd::prelude::*;
use vstd::std_specs::hash::DefaultHasherAdditionalSpecFns;

use crate::error::SrResult;
use crate::render_graph::access::opens_write_epoch;
use crate::render_graph::frame_laws::names;
use crate::render_graph::graph::{
    copy_views, import_views, sound_copies, AnyRenderPass, ExportedTemporalResource, QueueRole,
    RenderGraph, MAX_FRAMES_IN_FLIGHT,
};
use crate::render_graph::pass_builder::{
    stage_spirv, BufferCopy, ComputeQueueAffinity, ComputeRenderPass, ComputeRenderPassBuilder,
    CopyEnd, PassCommonDataBuilder, RasterRenderPassBuilder, RaytracingRenderPassBuilder, RenderJob,
    ShaderSource, TransferPassBuilder,
};
use crate::render_graph::pipeline_cache::{
    compute_key, graphics_key, hashed_parts, raytracing_key, CachedPipeline, PipelineCache,
    PipelineHandle,
};
use crate::render_graph::resource::{
    AccelerationStructure, BufferDesc, GraphResourceDesc, GraphResourceImportInfo,
    GraphResourceInfo, Handle, RawBuffer, Resource, ResourceDesc, TypeEquals,
};

verus! {

// ---------------------------------------------------------------------------
// Resources
// ---------------------------------------------------------------------------

/// A handle leads to the resource that it was given for, and takes none from another.
pub proof fn law_a_handle_leads_to_what_is_made<Desc>(
    graph: &mut RenderGraph,
    desc: Desc,
    handle: Handle<<Desc as ResourceDesc>::Resource>,
    other: int,
) where
    Desc: ResourceDesc + TypeEquals<Other = <<Desc as ResourceDesc>::Resource as Resource>::Desc>,

    requires
        old(graph).next_resource_id < u32::MAX,
        old(graph).ids_are_indices(),
        0 <= other < old(graph).virtual_resources@.len(),
        call_ensures(RenderGraph::create_resource::<Desc>, (graph, desc), handle),
    ensures
        handle.id < final(graph).virtual_resources@.len(),
        final(graph).virtual_resources@[handle.id as int] == GraphResourceInfo::Created(
            desc.graph_desc(),
        ),
        handle.desc == desc.as_other(),
        other != handle.id,
        final(graph).virtual_resources@[other] == old(graph).virtual_resources@[other],
        final(graph).passes == old(graph).passes,
        final(graph).temporal_resources == old(graph).temporal_resources,
        final(graph).output_resources == old(graph).output_resources,
        final(graph).ids_are_indices(),
{
    let before = old(graph).virtual_resources@;
    let after = final(graph).virtual_resources@;
    assert(after.drop_last()[other] == after[other]);
}

/// The same of what comes from outside: its object stays what it is, and it carries the
/// access that it is said to.
pub proof fn law_a_handle_leads_to_what_is_imported<Desc>(
    graph: &mut RenderGraph,
    with_usage: &mut RenderGraph,
    desc: Desc,
    import: GraphResourceImportInfo,
    usage: AccessType,
    handle: Handle<<Desc as ResourceDesc>::Resource>,
    handle_with_usage: Handle<<Desc as ResourceDesc>::Resource>,
    other: int,
) where
    Desc: ResourceDesc + TypeEquals<Other = <<Desc as ResourceDesc>::Resource as Resource>::Desc>,

    requires
        *old(graph) == *old(with_usage),
        old(graph).next_resource_id < u32::MAX,
        old(graph).ids_are_indices(),
        0 <= other < old(graph).virtual_resources@.len(),
        call_ensures(RenderGraph::import::<Desc>, (graph, desc, import), handle),
        call_ensures(
            RenderGraph::import_with_usage::<Desc>,
            (with_usage, desc, import, usage),
            handle_with_usage,
        ),
    ensures
        handle.id < final(graph).virtual_resources@.len(),
        final(graph).virtual_resources@[handle.id as int] == GraphResourceInfo::Imported(import),
        handle_with_usage.id == handle.id,
        handle_with_usage.desc == handle.desc,
        handle.desc == desc.as_other(),
        final(with_usage).virtual_resources@[handle.id as int] matches GraphResourceInfo::Imported(
            carried,
        ) && {
            &&& carried@.object == import@.object
            &&& !(import@.object is Sampler) ==> carried@.accesses.len() == 1
                && carried@.accesses[0] == usage
        },
        other != handle.id,
        final(graph).virtual_resources@[other] == old(graph).virtual_resources@[other],
        final(with_usage).virtual_resources@[other] == old(graph).virtual_resources@[other],
{
    let after = final(graph).virtual_resources@;
    let after_usage = final(with_usage).virtual_resources@;
    assert(after.drop_last()[other] == after[other]);
    assert(after_usage.drop_last()[other] == after_usage[other]);
}

/// What lives across frames is registered as it was kept: each copy under an id of its own,
/// as the object that was given for it and in the accesses it was left in, and the graph
/// remembers which id stands for which copy. The copies are given out in the order of their
/// slots.
pub proof fn law_copies_are_registered_as_they_were_kept<R: Resource>(
    graph: &mut RenderGraph,
    exported: ExportedTemporalResource<R>,
    handles: [Handle<R>; MAX_FRAMES_IN_FLIGHT],
    copy: int,
    other: int,
)
    requires
        old(graph).ids_are_indices(),
        old(graph).holds_temporal(exported.index as int),
        old(graph).next_resource_id + 2 <= u32::MAX,
        call_ensures(RenderGraph::register_temporal_resource::<R>, (graph, &exported), handles),
        0 <= copy < 2,
        0 <= other < old(graph).virtual_resources@.len(),
    ensures
        handles@[0].id != handles@[1].id,
        handles@[copy].desc == exported.desc,
        handles@[copy].id < final(graph).virtual_resources@.len(),
        final(graph).virtual_resources@[handles@[copy].id as int]
            matches GraphResourceInfo::Imported(import) && import@ == old(
            graph,
        ).temporal_resources@[exported.index as int].imports@[copy]@,
        final(graph).registered_temporal@.contains(
            (exported.index, copy as usize, handles@[copy].id),
        ),
        other != handles@[copy].id,
        final(graph).virtual_resources@[other] == old(graph).virtual_resources@[other],
        final(graph).temporal_resources == old(graph).temporal_resources,
        final(graph).ids_are_indices(),
{
    let before = old(graph).virtual_resources@;
    let after = final(graph).virtual_resources@;
    assert(after.take(before.len() as int)[other] == after[other]);
    assert(handles[copy].id == before.len() + copy);
    assert(handles[0].id == before.len() && handles[1].id == before.len() + 1);
    let at = old(graph).registered_temporal@.len() + copy;
    assert(final(graph).registered_temporal@[at] == (
        exported.index,
        copy as usize,
        handles@[copy].id,
    ));
}

/// What is kept across frames is found under its token: its copies are the objects that it
/// was given, of the size it was described with, and nobody has touched them. It takes the
/// place of nothing that was kept before. Only images and buffers are kept.
pub proof fn law_a_token_leads_to_its_backings<Desc>(
    graph: &mut RenderGraph,
    desc: Desc,
    backings: [u64; MAX_FRAMES_IN_FLIGHT],
    frame: usize,
    r: SrResult<ExportedTemporalResource<<Desc as ResourceDesc>::Resource>>,
    copy: int,
    other: int,
) where
    Desc: ResourceDesc + TypeEquals<Other = <<Desc as ResourceDesc>::Resource as Resource>::Desc>,

    requires
        call_ensures(
            RenderGraph::create_temporal_resource::<Desc>,
            (graph, desc, backings, frame),
            r,
        ),
        0 <= copy < 2,
        0 <= other < old(graph).temporal_resources@.len(),
    ensures
        r is Ok <==> desc.graph_desc() is Image || desc.graph_desc() is Buffer,
        r is Err ==> *final(graph) == *old(graph),
        r matches Ok(exported) ==> {
            let kept = final(graph).temporal_resources@;
            &&& exported.index < kept.len()
            &&& other != exported.index
            &&& kept[other] == old(graph).temporal_resources@[other]
            &&& kept[exported.index as int].frame_of_creation == frame
            &&& kept[exported.index as int].imports@.len() == 2
            &&& kept[exported.index as int].imports@[copy]@.object.token() == backings@[copy]
            &&& kept[exported.index as int].imports@[copy]@.accesses.len() == 1
            &&& kept[exported.index as int].imports@[copy]@.accesses[0] == AccessType::Nothing
            &&& desc.graph_desc() matches GraphResourceDesc::Buffer(d) ==> match kept[exported.index as int].imports@[copy] {
                GraphResourceImportInfo::Buffer { resource, .. } => resource.byte_size
                    == d.byte_size,
                _ => false,
            }
            &&& desc.graph_desc() matches GraphResourceDesc::Image(d) ==> match kept[exported.index as int].imports@[copy] {
                GraphResourceImportInfo::Image { resource, .. } => resource.extent == d.extent
                    && resource.format == d.format,
                _ => false,
            }
            &&& final(graph).virtual_resources == old(graph).virtual_resources
        },
{
    if let Ok(exported) = r {
        let kept = final(graph).temporal_resources@;
        assert(kept.drop_last()[other] == kept[other]);
        let imports = kept.last().imports@;
        let views = import_views(imports);
        assert(views.len() == 2);
        assert(views[copy] == imports[copy]@);
    }
}

/// What is declared a result is one, and what was one stays one. No other becomes one.
pub proof fn law_results_are_what_was_declared<R: Resource>(
    graph: &mut RenderGraph,
    handle: Handle<R>,
    id: u32,
)
    requires
        call_ensures(RenderGraph::mark_output::<R>, (graph, &handle), ()),
    ensures
        final(graph).output_resources@.contains(id) <==> id == handle.id || old(
            graph,
        ).output_resources@.contains(id),
        final(graph).passes == old(graph).passes,
        final(graph).virtual_resources == old(graph).virtual_resources,
{
}

/// Frames that run at once have places of their own, and the places are used in turn.
pub proof fn law_frames_in_flight_have_their_own_places(
    frame: usize,
    next: usize,
    after_next: usize,
    a: usize,
    b: usize,
    c: usize,
)
    requires
        next == frame + 1,
        after_next == frame + 2,
        call_ensures(RenderGraph::current_slot, (frame,), a),
        call_ensures(RenderGraph::current_slot, (next,), b),
        call_ensures(RenderGraph::current_slot, (after_next,), c),
    ensures
        a != b,
        b != c,
        a == c,
        a < 2,
{
    let f = frame as int;
    assert(f % 2 != (f + 1) % 2 && f % 2 == (f + 2) % 2);
}

// ---------------------------------------------------------------------------
// Declarations of passes
// ---------------------------------------------------------------------------

/// What a pass declares as read is never written by it, and what it declares as written is:
/// an access is taken for one of them and refused for the other. What is taken is declared
/// of the resource that was named, behind what was declared before; what is refused leaves
/// the pass as it was.
pub proof fn law_an_access_is_read_or_written<R: Resource>(
    reading: &mut PassCommonDataBuilder,
    writing: &mut PassCommonDataBuilder,
    handle: Handle<R>,
    access: AccessType,
    read: SrResult<()>,
    written: SrResult<()>,
)
    requires
        *old(reading) == *old(writing),
        call_ensures(PassCommonDataBuilder::read::<R>, (reading, &handle, access), read),
        call_ensures(PassCommonDataBuilder::write::<R>, (writing, &handle, access), written),
    ensures
        read is Ok <==> written is Err,
        read is Err ==> *final(reading) == *old(reading),
        written is Err ==> *final(writing) == *old(writing),
        read is Ok ==> {
            let refs = final(reading).pass_common_data.read@;
            let before = old(reading).pass_common_data.read@;
            &&& refs.len() == before.len() + 1
            &&& refs.last().id == handle.id
            &&& refs.last().access.access_type == access
            &&& forall|i: int| 0 <= i < before.len() ==> refs[i] == before[i]
            &&& final(reading).pass_common_data.write@ == old(reading).pass_common_data.write@
            &&& final(reading).pass_common_data.render == old(reading).pass_common_data.render
            &&& final(reading).pass_common_data.output == old(reading).pass_common_data.output
        },
        written is Ok ==> {
            let refs = final(writing).pass_common_data.write@;
            let before = old(writing).pass_common_data.write@;
            &&& refs.len() == before.len() + 1
            &&& refs.last().id == handle.id
            &&& refs.last().access.access_type == access
            &&& forall|i: int| 0 <= i < before.len() ==> refs[i] == before[i]
            &&& final(writing).pass_common_data.read@ == old(writing).pass_common_data.read@
            &&& final(writing).pass_common_data.render == old(writing).pass_common_data.render
            &&& final(writing).pass_common_data.output == old(writing).pass_common_data.output
        },
{
}

/// What an import carries in is declared of it once, whatever it is: where it orders those
/// who come behind it among the writes, otherwise among the reads.
pub proof fn law_what_is_carried_in_is_declared(
    builder: &mut PassCommonDataBuilder,
    id: u32,
    access: AccessType,
)
    requires
        call_ensures(PassCommonDataBuilder::declare_previous_imports, (builder, id, access), ()),
    ensures
        ({
            let before = old(builder).pass_common_data;
            let after = final(builder).pass_common_data;
            if opens_write_epoch(access) {
                &&& after.write@.len() == before.write@.len() + 1
                &&& after.write@.last().id == id
                &&& after.write@.last().access.access_type == access
                &&& after.read@ == before.read@
            } else {
                &&& after.read@.len() == before.read@.len() + 1
                &&& after.read@.last().id == id
                &&& after.read@.last().access.access_type == access
                &&& after.write@ == before.write@
            }
        }),
{
}

/// A pass that builds a structure is declared so that builds are ordered: it writes what it
/// builds and nothing else, and reads each of what it builds from and nothing else. So where
/// one pass builds from what another builds, the one declares a read of what the other
/// declares a write of.
pub proof fn law_builds_declare_what_they_build_from(
    graph: &mut RenderGraph,
    name: &str,
    target: Handle<AccelerationStructure>,
    deps: Vec<Handle<AccelerationStructure>>,
    job: u64,
    scratch: u64,
    r: SrResult<()>,
    d: int,
)
    requires
        old(graph).next_pass_id < u32::MAX,
        call_ensures(
            RenderGraph::add_as_build_pass,
            (graph, name, &target, &deps, job, scratch),
            r,
        ),
        0 <= d < deps@.len(),
    ensures
        r is Ok,
        ({
            let pass = final(graph).passes@.last();
            let data = pass.data();
            &&& final(graph).passes@.len() == old(graph).passes@.len() + 1
            &&& forall|i: int|
                0 <= i < old(graph).passes@.len() ==> final(graph).passes@[i] == old(
                    graph,
                ).passes@[i]
            &&& data.write@.len() == 1
            &&& data.write@[0].id == target.id
            &&& opens_write_epoch(data.write@[0].access.access_type)
            &&& data.read@.len() == deps@.len()
            &&& data.read@[d].id == deps@[d].id
            &&& !opens_write_epoch(data.read@[d].access.access_type)
            &&& names(data.write@, target.id)
            &&& names(data.read@, deps@[d].id)
            &&& data.render == Some(RenderJob::BuildAccelerationStructure { job, scratch })
            &&& data.id == old(graph).next_pass_id
            &&& pass.queue() == QueueRole::Graphics
            &&& final(graph).next_pass_id == old(graph).next_pass_id + 1
            &&& final(graph).virtual_resources == old(graph).virtual_resources
        }),
{
    let data = final(graph).passes@.last().data();
    assert forall|i: int| 0 <= i < old(graph).passes@.len() implies final(graph).passes@[i] == old(
        graph,
    ).passes@[i] by {
        assert(final(graph).passes@.drop_last()[i] == final(graph).passes@[i]);
    }
    assert(data.write@[0].id == target.id);
    assert(data.read@[d].id == deps@[d].id);
    assert(opens_write_epoch(AccessType::AccelerationStructureBuildWrite));
    assert(!opens_write_epoch(AccessType::AccelerationStructureBuildRead));
}

/// A pass goes where its kind says, and only computing has a choice.
pub proof fn law_only_compute_chooses_its_queue(pass: AnyRenderPass, role: QueueRole)
    requires
        call_ensures(AnyRenderPass::queue_role, (&pass,), role),
    ensures
        role == QueueRole::Transfer <==> pass is Transfer,
        role == QueueRole::AsyncCompute <==> (pass matches AnyRenderPass::Compute(p)
            && p.queue_affinity == ComputeQueueAffinity::AsyncCompute),
{
}

// ---------------------------------------------------------------------------
// Copies
// ---------------------------------------------------------------------------

/// Whether a copy reads bytes that its source does not have.
pub open spec fn leaves_source(copy: (u64, u64, Handle<RawBuffer>, BufferCopy)) -> bool {
    copy.3.src_offset + copy.3.size > copy.1
}

proof fn lemma_sound(copies: Seq<(u64, u64, Handle<RawBuffer>, BufferCopy)>, n: nat)
    requires
        n <= copies.len(),
    ensures
        ({
            let good = sound_copies(copies, n);
            &&& good <= n
            &&& forall|i: int| 0 <= i < good ==> !leaves_source(#[trigger] copies[i])
            &&& good < n ==> leaves_source(copies[good as int])
        }),
    decreases n,
{
    if n > 0 {
        lemma_sound(copies, (n - 1) as nat);
    }
}

/// Copies that are handed over for the head of a frame are kept in their order, up to the
/// first that would read beyond its source: that one is refused, and all is well only if
/// there is none. Those that were kept before stay in front.
pub proof fn law_copies_within_their_sources_are_kept(
    graph: &mut RenderGraph,
    copies: Vec<(u64, u64, Handle<RawBuffer>, BufferCopy)>,
    r: SrResult<()>,
    i: int,
)
    requires
        call_ensures(RenderGraph::add_prologue_buffer_copies, (graph, &copies), r),
        0 <= i < copies@.len(),
        forall|j: int| 0 <= j <= i ==> !leaves_source(#[trigger] copies@[j]),
    ensures
        r is Ok <==> forall|j: int| 0 <= j < copies@.len() ==> !leaves_source(#[trigger] copies@[j]),
        ({
            let before = old(graph).prologue_copies@;
            let kept = final(graph).prologue_copies@;
            &&& before.len() + i < kept.len()
            &&& kept[before.len() + i].0 == copies@[i].0
            &&& kept[before.len() + i].1.id == copies@[i].2.id
            &&& kept[before.len() + i].2 == copies@[i].3
            &&& forall|j: int| #![trigger kept[j]]
                0 <= j < before.len() ==> kept[j].0 == before[j].0 && kept[j].1.id == before[j].1.id
                    && kept[j].2 == before[j].2
            &&& kept.len() <= before.len() + copies@.len()
        }),
        final(graph).passes == old(graph).passes,
        final(graph).virtual_resources == old(graph).virtual_resources,
{
    lemma_sound(copies@, copies@.len());
    let good = sound_copies(copies@, copies@.len());
    assert(i < good);
    let before = old(graph).prologue_copies@;
    let kept = final(graph).prologue_copies@;
    let all = copy_views(kept);
    let was = copy_views(before);
    assert(all.len() == kept.len() && was.len() == before.len());
    assert(kept.len() == before.len() + good);
    assert(all[before.len() + i] == (copies@[i].0, copies@[i].2.id, copies@[i].2.desc, copies@[i].3));
    assert forall|j: int| #![trigger kept[j]] 0 <= j < before.len() implies kept[j].0
        == before[j].0 && kept[j].1.id == before[j].1.id && kept[j].2 == before[j].2 by {
        assert(all[j] == was[j]);
    }
    if r is Ok {
        assert forall|j: int| 0 <= j < copies@.len() implies !leaves_source(
            #[trigger] copies@[j],
        ) by {}
    } else {
        assert(leaves_source(copies@[good as int]));
    }
}

/// A copy into a buffer of the graph is taken exactly when its bytes lie inside the buffer;
/// the pass then carries it and declares that it writes the buffer. A copy that is refused
/// leaves no trace.
pub proof fn law_copies_stay_inside_their_buffer(
    builder: &mut TransferPassBuilder,
    src: u64,
    dst: Handle<RawBuffer>,
    region: BufferCopy,
    r: SrResult<()>,
)
    requires
        call_ensures(
            TransferPassBuilder::copy_from_prechecked_raw,
            (builder, src, &dst, region),
            r,
        ),
    ensures
        ({
            let desc: BufferDesc = dst.desc;
            r is Ok <==> region.dst_offset + region.size <= desc.byte_size
        }),
        r is Err ==> *final(builder) == *old(builder),
        r is Ok ==> {
            let writes = final(builder).common.pass_common_data.write@;
            &&& final(builder).copies@.len() == old(builder).copies@.len() + 1
            &&& final(builder).copies@.last() == (CopyEnd::Raw(src), CopyEnd::Handle(dst.id), region)
            &&& names(writes, dst.id)
            &&& writes.len() == old(builder).common.pass_common_data.write@.len() + 1
            &&& writes.last().id == dst.id
            &&& opens_write_epoch(writes.last().access.access_type)
            &&& final(builder).common.pass_common_data.read@ == old(
                builder,
            ).common.pass_common_data.read@
        },
{
    if r is Ok {
        let writes = final(builder).common.pass_common_data.write@;
        assert(writes[writes.len() - 1].id == dst.id);
        assert(opens_write_epoch(AccessType::TransferWrite));
    }
}

// ---------------------------------------------------------------------------
// Pipelines
// ---------------------------------------------------------------------------

/// Whether a key is what hashing these pieces gives.
pub open spec fn keyed_by(key: u64, pieces: Seq<Seq<u8>>) -> bool {
    key == DefaultHasher::spec_finish(pieces)
}

/// What the key of a ray-tracing pipeline is hashed from tells every stage: other code in
/// any one of them is another thing to hash.
pub proof fn law_ray_tracing_keys_tell_every_stage(
    a: (Seq<u8>, Seq<u8>, Seq<u8>, Seq<u8>),
    b: (Seq<u8>, Seq<u8>, Seq<u8>, Seq<u8>),
) -> (r: (Seq<Seq<u8>>, Seq<Seq<u8>>))
    ensures
        keyed_by(raytracing_key(a.0, a.1, a.2, a.3), r.0),
        keyed_by(raytracing_key(b.0, b.1, b.2, b.3), r.1),
        r.0 == r.1 <==> a == b,
{
    reveal_with_fuel(hashed_parts, 5);
    let s = seq![seq![1u8]] + hashed_parts(seq![a.0, a.1, a.2, a.3], 4);
    let t = seq![seq![1u8]] + hashed_parts(seq![b.0, b.1, b.2, b.3], 4);
    assert(s[2] == a.0 && s[4] == a.1 && s[6] == a.2 && s[8] == a.3);
    assert(t[2] == b.0 && t[4] == b.1 && t[6] == b.2 && t[8] == b.3);
    (s, t)
}

/// The same of graphics pipelines, whose format counts too, and of compute pipelines.
pub proof fn law_keys_tell_what_they_are_made_from(
    a: (Seq<u8>, Seq<u8>, i32),
    b: (Seq<u8>, Seq<u8>, i32),
) -> (r: (Seq<Seq<u8>>, Seq<Seq<u8>>, Seq<Seq<u8>>, Seq<Seq<u8>>))
    ensures
        keyed_by(graphics_key(a.0, a.1, a.2), r.0),
        keyed_by(graphics_key(b.0, b.1, b.2), r.1),
        r.0 == r.1 <==> a == b,
        keyed_by(compute_key(a.0), r.2),
        keyed_by(compute_key(b.0), r.3),
        r.2 == r.3 <==> a.0 == b.0,
{
    reveal_with_fuel(hashed_parts, 4);
    let fa = vstd::bytes::spec_u32_to_le_bytes(a.2 as u32);
    let fb = vstd::bytes::spec_u32_to_le_bytes(b.2 as u32);
    let s = seq![seq![2u8]] + hashed_parts(seq![a.0, a.1, fa], 3);
    let t = seq![seq![2u8]] + hashed_parts(seq![b.0, b.1, fb], 3);
    assert(s[2] == a.0 && s[4] == a.1 && s[6] == fa);
    assert(t[2] == b.0 && t[4] == b.1 && t[6] == fb);
    vstd::bytes::lemma_auto_spec_u32_to_from_le_bytes();
    let (x, y) = (a.2, b.2);
    assert((x as u32) == (y as u32) ==> x == y) by (bit_vector);
    let u = seq![seq![0u8]] + hashed_parts(seq![a.0], 1);
    let v = seq![seq![0u8]] + hashed_parts(seq![b.0], 1);
    assert(u[2] == a.0 && v[2] == b.0);
    (s, t, u, v)
}

/// Pipelines of different kinds are hashed from different things, whatever their code is.
pub proof fn law_kinds_are_told_apart(
    compute: Seq<u8>,
    rays: (Seq<u8>, Seq<u8>, Seq<u8>, Seq<u8>),
    raster: (Seq<u8>, Seq<u8>, i32),
) -> (r: (Seq<Seq<u8>>, Seq<Seq<u8>>, Seq<Seq<u8>>))
    ensures
        keyed_by(compute_key(compute), r.0),
        keyed_by(raytracing_key(rays.0, rays.1, rays.2, rays.3), r.1),
        keyed_by(graphics_key(raster.0, raster.1, raster.2), r.2),
        r.0 != r.1,
        r.1 != r.2,
        r.0 != r.2,
{
    let f = vstd::bytes::spec_u32_to_le_bytes(raster.2 as u32);
    let s = seq![seq![0u8]] + hashed_parts(seq![compute], 1);
    let t = seq![seq![1u8]] + hashed_parts(seq![rays.0, rays.1, rays.2, rays.3], 4);
    let u = seq![seq![2u8]] + hashed_parts(seq![raster.0, raster.1, f], 3);
    assert(s[0][0] == 0u8 && t[0][0] == 1u8 && u[0][0] == 2u8);
    (s, t, u)
}

/// A handle is of use only as the kind of pipeline that it leads to.
pub proof fn law_handles_have_one_kind(
    cache: PipelineCache,
    handle: PipelineHandle,
    compute: SrResult<u64>,
    rays: SrResult<(u64, u64)>,
    raster: SrResult<u64>,
)
    requires
        call_ensures(PipelineCache::compute_pipeline, (&cache, handle), compute),
        call_ensures(PipelineCache::raytracing_pipeline, (&cache, handle), rays),
        call_ensures(PipelineCache::graphics_pipeline, (&cache, handle), raster),
    ensures
        handle.0 >= cache.entries@.len() ==> compute is Err && rays is Err && raster is Err,
        handle.0 < cache.entries@.len() ==> match cache.entries@[handle.0 as int] {
            CachedPipeline::Compute(pipeline) => rays is Err && raster is Err && (compute
                matches Ok(p) && p == pipeline),
            CachedPipeline::RayTracing(pipeline, table) => compute is Err && raster is Err && (rays
                matches Ok(p) && p == (pipeline, table)),
            CachedPipeline::Graphics(pipeline) => compute is Err && rays is Err && (raster
                matches Ok(p) && p == pipeline),
        },
{
}

/// The code of a stage is that of the module that it names, and there is none unless the
/// module is there and compiled.
pub proof fn law_stages_find_their_module(
    context: &str,
    stage: &str,
    shaders: Vec<ShaderSource>,
    entry: (usize, String),
    r: SrResult<&Vec<u8>>,
)
    requires
        call_ensures(stage_spirv, (context, stage, &shaders, &entry), r),
    ensures
        r is Ok <==> entry.0 < shaders@.len() && shaders@[entry.0 as int] is Spirv,
        r matches Ok(code) ==> (shaders@[entry.0 as int] matches ShaderSource::Spirv(bytes)
            && bytes@ == code@),
{
}

/// A pass that is given its pipeline keeps what it declares, and runs the pipeline that it
/// interned over what it was told to: a ray-tracing pass over its extent, a compute pass
/// over its groups. Without its pipeline it is not made.
pub proof fn law_passes_run_what_they_interned(
    rays: RaytracingRenderPassBuilder,
    raster: RasterRenderPassBuilder,
    compute: ComputeRenderPassBuilder,
    groups: (u32, u32, u32),
    push: u64,
    pipeline: SrResult<PipelineHandle>,
    rays_made: SrResult<RaytracingRenderPassBuilder>,
    raster_made: SrResult<RasterRenderPassBuilder>,
    compute_made: SrResult<ComputeRenderPass>,
)
    requires
        rays.generates(push, pipeline, rays_made),
        raster.generates(push, pipeline, raster_made),
        compute.generates(groups, push, pipeline, compute_made),
        rays.common is Some && raster.common is Some && compute.common is Some,
        rays.trace_extent is Some,
    ensures
        rays_made is Ok <==> pipeline is Ok,
        raster_made is Ok <==> pipeline is Ok,
        compute_made is Ok <==> pipeline is Ok,
        pipeline matches Ok(handle) ==> {
            let r = rays_made->Ok_0.common->0;
            let a = raster_made->Ok_0.common->0;
            let c = compute_made->Ok_0.common;
            &&& rays_made->Ok_0.common is Some && raster_made->Ok_0.common is Some
            &&& r.render matches Some(RenderJob::TraceRays { pipeline: p, extent, push: q })
                && p == handle && extent == rays.trace_extent->0 && q == push
            &&& a.render matches Some(RenderJob::Draw { pipeline: p, push: q }) && p == handle
                && q == push
            &&& c.render matches Some(RenderJob::Dispatch { pipeline: p, groups: g, push: q })
                && p == handle && g == groups && q == push
            &&& r.read == (rays.common->0).read && r.write == (rays.common->0).write
            &&& a.read == (raster.common->0).read && a.write == (raster.common->0).write
            &&& c.read == (compute.common->0).read && c.write == (compute.common->0).write
            &&& r.output == (rays.common->0).output && a.output == (raster.common->0).output
                && c.output == (compute.common->0).output
        },
{
}

} // verus!
