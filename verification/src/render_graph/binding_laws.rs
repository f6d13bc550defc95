//! What holds of the objects bound to a frame, and of the barriers issued on them.

use vk_sync_fork::AccessType;
use vstd::prelude::*;

use crate::render_graph::access::optimal_layout;
use crate::render_graph::alias::Placement;
use crate::render_graph::barriers::ResourceBarrier;
use crate::render_graph::pass_builder::{BufferCopy, CopyEnd};
use crate::render_graph::resource::{
    BoundBuffer, BoundImage, GraphResourceDesc, GraphResourceImportInfo, GraphResourceInfo,
};
use crate::render_graph::transient_resources::{
    aspects, imported_buffer, imported_image, imported_sampler, imported_structure, made_buffer,
    made_image, made_sampler, BarrierBatch, ImageBarrier, ImageStep, Objects, TransientResources,
};

verus! {

// ---------------------------------------------------------------------------
// Barriers
// ---------------------------------------------------------------------------

/// Whether an image is bound to a resource: the graph's own, or an imported one.
pub open spec fn has_image(tr: TransientResources, id: u32, image: BoundImage) -> bool {
    if tr.transient_images@.contains_key(id) {
        image == tr.transient_images@[id]
    } else {
        tr.external_images@.contains_key(id) && image == tr.external_images@[id]
    }
}

/// Whether no image is bound to a resource.
pub open spec fn has_no_image(tr: TransientResources, id: u32) -> bool {
    !tr.transient_images@.contains_key(id) && !tr.external_images@.contains_key(id)
}

/// Whether a transition takes an image from one layout to another.
pub open spec fn moves_layout(b: ResourceBarrier) -> bool {
    b.prev@.len() > 0 && b.next@.len() > 0 && optimal_layout(b.prev@[0]) != optimal_layout(
        b.next@[0],
    )
}

/// Whether an image barrier does to an image what a transition asks for, and no more.
pub open spec fn carries_out(step: ImageBarrier, b: ResourceBarrier, image: BoundImage) -> bool {
    &&& step.image == image.token
    &&& step.prev@ == b.prev@
    &&& step.next@ == b.next@
    &&& step.discard == b.discard
    &&& step.aspect != 0
    // Vulkan's formats with depth or stencil have the numbers 124 to 130.
    &&& step.aspect & 1u32 != 0 <==> !(124 <= image.format <= 130)
    &&& step.aspect & 2u32 != 0 <==> 124 <= image.format <= 130 && image.format != 127
    &&& step.aspect & 4u32 != 0 <==> 127 <= image.format <= 130
}

/// Whether one of the transitions is what an image barrier carries out.
pub open spec fn asked_for(
    tr: TransientResources,
    barriers: Seq<ResourceBarrier>,
    step: ImageBarrier,
    i: int,
) -> bool {
    &&& 0 <= i < barriers.len()
    &&& exists|image: BoundImage| #[trigger]
        has_image(tr, barriers[i].resource_id, image) && carries_out(step, barriers[i], image)
}

proof fn lemma_aspects(format: i32)
    ensures
        aspects(format) != 0,
        aspects(format) & 1u32 != 0 <==> !(124 <= format <= 130),
        aspects(format) & 2u32 != 0 <==> 124 <= format <= 130 && format != 127,
        aspects(format) & 4u32 != 0 <==> 127 <= format <= 130,
{
    assert(1u32 & 1u32 != 0 && 1u32 & 2u32 == 0 && 1u32 & 4u32 == 0 && 2u32 & 1u32 == 0 && 2u32
        & 2u32 != 0 && 2u32 & 4u32 == 0 && 4u32 & 1u32 == 0 && 4u32 & 2u32 == 0 && 4u32 & 4u32 != 0
        && 6u32 & 1u32 == 0 && 6u32 & 2u32 != 0 && 6u32 & 4u32 != 0) by (bit_vector);
}

proof fn lemma_step(
    tr: TransientResources,
    b: ResourceBarrier,
    image: BoundImage,
    made: ImageBarrier,
)
    requires
        has_image(tr, b.resource_id, image),
        tr.image_step(b) == Some(made@),
    ensures
        carries_out(made, b, image),
{
    lemma_aspects(image.format);
}

proof fn lemma_steps_kept(
    tr: TransientResources,
    barriers: Seq<ResourceBarrier>,
    i: int,
    n: nat,
) -> (k: int)
    requires
        0 <= i < n <= barriers.len(),
        tr.image_step(barriers[i]) is Some,
    ensures
        0 <= k < tr.image_steps(barriers, n).len(),
        tr.image_steps(barriers, n)[k] == tr.image_step(barriers[i])->0,
    decreases n,
{
    let m = (n - 1) as nat;
    if i < m {
        lemma_steps_kept(tr, barriers, i, m)
    } else {
        tr.image_steps(barriers, m).len() as int
    }
}

proof fn lemma_steps_made(
    tr: TransientResources,
    barriers: Seq<ResourceBarrier>,
    k: int,
    n: nat,
) -> (i: int)
    requires
        n <= barriers.len(),
        0 <= k < tr.image_steps(barriers, n).len(),
    ensures
        0 <= i < n,
        tr.image_step(barriers[i]) == Some(tr.image_steps(barriers, n)[k]),
    decreases n,
{
    let m = (n - 1) as nat;
    if k < tr.image_steps(barriers, m).len() {
        lemma_steps_made(tr, barriers, k, m)
    } else {
        m as int
    }
}

proof fn lemma_global_holds(
    tr: TransientResources,
    barriers: Seq<ResourceBarrier>,
    i: int,
    n: nat,
)
    requires
        0 <= i < n <= barriers.len(),
        tr.image_step(barriers[i]) is None,
    ensures
        forall|k: int|
            0 <= k < barriers[i].prev@.len() ==> tr.global_prev(barriers, n).contains(
                #[trigger] barriers[i].prev@[k],
            ),
        forall|k: int|
            0 <= k < barriers[i].next@.len() ==> tr.global_next(barriers, n).contains(
                #[trigger] barriers[i].next@[k],
            ),
    decreases n,
{
    let m = (n - 1) as nat;
    let p = tr.global_prev(barriers, m);
    let q = tr.global_next(barriers, m);
    let b = barriers[i];
    if i < m {
        lemma_global_holds(tr, barriers, i, m);
        assert forall|k: int| 0 <= k < b.prev@.len() implies tr.global_prev(barriers, n).contains(
            #[trigger] b.prev@[k],
        ) by {
            let j = choose|j: int| 0 <= j < p.len() && p[j] == b.prev@[k];
            assert(tr.global_prev(barriers, n)[j] == b.prev@[k]);
        }
        assert forall|k: int| 0 <= k < b.next@.len() implies tr.global_next(barriers, n).contains(
            #[trigger] b.next@[k],
        ) by {
            let j = choose|j: int| 0 <= j < q.len() && q[j] == b.next@[k];
            assert(tr.global_next(barriers, n)[j] == b.next@[k]);
        }
    } else {
        assert forall|k: int| 0 <= k < b.prev@.len() implies tr.global_prev(barriers, n).contains(
            #[trigger] b.prev@[k],
        ) by {
            assert(tr.global_prev(barriers, n)[p.len() + k] == b.prev@[k]);
        }
        assert forall|k: int| 0 <= k < b.next@.len() implies tr.global_next(barriers, n).contains(
            #[trigger] b.next@[k],
        ) by {
            assert(tr.global_next(barriers, n)[q.len() + k] == b.next@[k]);
        }
    }
}

proof fn lemma_global_made(
    tr: TransientResources,
    barriers: Seq<ResourceBarrier>,
    n: nat,
    at: int,
) -> (i: int)
    requires
        n <= barriers.len(),
        0 <= at < tr.global_prev(barriers, n).len(),
    ensures
        0 <= i < n,
        tr.image_step(barriers[i]) is None,
        barriers[i].prev@.contains(tr.global_prev(barriers, n)[at]),
    decreases n,
{
    let m = (n - 1) as nat;
    let p = tr.global_prev(barriers, m);
    if at < p.len() {
        lemma_global_made(tr, barriers, m, at)
    } else {
        assert(barriers[m as int].prev@[at - p.len()] == tr.global_prev(barriers, n)[at]);
        m as int
    }
}

/// A transition on an image that moves its layout or drops its contents becomes a barrier
/// on that image, with the same accesses on either side, over all aspects that the image
/// has, and it drops the contents exactly where the transition does. Any other transition
/// is waited for, and waits, in the global barrier.
pub proof fn law_every_transition_is_carried_out(
    tr: TransientResources,
    barriers: Seq<ResourceBarrier>,
    batch: BarrierBatch,
    i: int,
)
    requires
        tr.splits_into(barriers, batch),
        0 <= i < barriers.len(),
    ensures
        forall|image: BoundImage| #[trigger]
            has_image(tr, barriers[i].resource_id, image) && (moves_layout(barriers[i])
                || barriers[i].discard) ==> exists|k: int|
                0 <= k < batch.images@.len() && carries_out(
                    #[trigger] batch.images@[k],
                    barriers[i],
                    image,
                ),
        barriers[i].prev@.len() > 0 && barriers[i].next@.len() > 0 && (has_no_image(
            tr,
            barriers[i].resource_id,
        ) || !moves_layout(barriers[i]) && !barriers[i].discard) ==> (batch.global matches Some(
            sides,
        ) && (forall|k: int|
            0 <= k < barriers[i].prev@.len() ==> sides.0@.contains(
                #[trigger] barriers[i].prev@[k],
            )) && (forall|k: int|
            0 <= k < barriers[i].next@.len() ==> sides.1@.contains(
                #[trigger] barriers[i].next@[k],
            ))),
{
    let n = barriers.len();
    let b = barriers[i];
    assert forall|image: BoundImage| #[trigger]
        has_image(tr, b.resource_id, image) && (moves_layout(b) || b.discard) implies exists|k: int|
        0 <= k < batch.images@.len() && carries_out(#[trigger] batch.images@[k], b, image) by {
        let k = lemma_steps_kept(tr, barriers, i, n);
        assert(batch.images@[k]@ == tr.image_steps(barriers, n)[k]) by {
            assert(crate::render_graph::transient_resources::step_views(batch.images@)[k]
                == batch.images@[k]@);
        }
        lemma_step(tr, b, image, batch.images@[k]);
    }
    if b.prev@.len() > 0 && b.next@.len() > 0 && (has_no_image(tr, b.resource_id) || !moves_layout(
        b,
    ) && !b.discard) {
        assert(tr.image_step(b) is None);
        lemma_global_holds(tr, barriers, i, n);
        assert(tr.global_prev(barriers, n).contains(b.prev@[0]));
    }
}

/// No barrier is made up: what is done to an image was asked for by a transition on it, so
/// contents are dropped only where a transition drops them. What the global barrier waits
/// for is what some transition leaves that changes neither a layout nor contents.
pub proof fn law_no_barrier_is_made_up(
    tr: TransientResources,
    barriers: Seq<ResourceBarrier>,
    batch: BarrierBatch,
    k: int,
)
    requires
        tr.splits_into(barriers, batch),
    ensures
        0 <= k < batch.images@.len() ==> exists|i: int| #[trigger]
            asked_for(tr, barriers, batch.images@[k], i) && (moves_layout(barriers[i])
                || barriers[i].discard || barriers[i].prev@.len() == 0
                || barriers[i].next@.len() == 0),
        batch.global matches Some(sides) ==> (0 <= k < sides.0@.len() ==> exists|i: int|
            0 <= i < barriers.len() && (#[trigger] barriers[i]).prev@.contains(sides.0@[k])
                && (has_no_image(tr, barriers[i].resource_id) || !moves_layout(barriers[i])
                && !barriers[i].discard)),
{
    let n = barriers.len();
    if 0 <= k < batch.images@.len() {
        assert(crate::render_graph::transient_resources::step_views(batch.images@)[k]
            == batch.images@[k]@);
        let i = lemma_steps_made(tr, barriers, k, n);
        let b = barriers[i];
        let image = tr.image_of(b.resource_id)->0;
        assert(has_image(tr, b.resource_id, image));
        lemma_step(tr, b, image, batch.images@[k]);
        assert(asked_for(tr, barriers, batch.images@[k], i));
    }
    if batch.global is Some && 0 <= k < (batch.global->0).0@.len() {
        let i = lemma_global_made(tr, barriers, n, k);
        assert(barriers[i].prev@.contains((batch.global->0).0@[k]));
    }
}

// ---------------------------------------------------------------------------
// Objects
// ---------------------------------------------------------------------------

/// Every resource of a frame leads to its own object: what the graph makes to the object
/// that was made for it, of the extent, format or size that was declared; what it imports
/// to what was imported. No resource leads to two kinds of objects.
pub proof fn law_resources_lead_to_their_objects(
    tr: TransientResources,
    infos: Seq<GraphResourceInfo>,
    placements: Map<u32, Placement>,
    objects: Objects,
    id: u32,
)
    requires
        tr.binds(infos, placements, objects, infos.len() as int),
        id < infos.len(),
    ensures
        match infos[id as int] {
            GraphResourceInfo::Created(GraphResourceDesc::Image(d)) => {
                &&& placements.contains_key(id) && objects.contains_key(id) ==> has_image(
                    tr,
                    id,
                    BoundImage { token: objects[id], extent: d.extent, format: d.format },
                )
                &&& !placements.contains_key(id) || !objects.contains_key(id) ==> has_no_image(
                    tr,
                    id,
                )
                &&& tr.buffer_of(id) is None
            },
            GraphResourceInfo::Created(GraphResourceDesc::Buffer(d)) => {
                &&& placements.contains_key(id) && objects.contains_key(id) ==> tr.buffer_of(id)
                    == Some(objects[id]) && tr.transient_buffers@[id].byte_size == d.byte_size
                &&& !placements.contains_key(id) || !objects.contains_key(id) ==> tr.buffer_of(
                    id,
                ) is None
                &&& has_no_image(tr, id)
            },
            GraphResourceInfo::Created(GraphResourceDesc::Sampler(_)) => {
                &&& tr.transient_samplers@.contains_key(id) == objects.contains_key(id)
                &&& objects.contains_key(id) ==> tr.transient_samplers@[id] == objects[id]
                &&& has_no_image(tr, id) && tr.buffer_of(id) is None
            },
            GraphResourceInfo::Created(GraphResourceDesc::RaytracingAS(_)) => {
                has_no_image(tr, id) && tr.buffer_of(id) is None
            },
            GraphResourceInfo::Imported(GraphResourceImportInfo::Image { resource, .. }) => {
                has_image(tr, id, resource) && tr.buffer_of(id) is None
            },
            GraphResourceInfo::Imported(GraphResourceImportInfo::Buffer { resource, .. }) => {
                &&& tr.buffer_of(id) == Some(resource.token)
                &&& tr.external_buffers@[id] == resource
                &&& has_no_image(tr, id)
            },
            GraphResourceInfo::Imported(GraphResourceImportInfo::Sampler { resource }) => {
                &&& tr.external_samplers@.contains_key(id)
                &&& tr.external_samplers@[id] == resource
                &&& has_no_image(tr, id) && tr.buffer_of(id) is None
            },
            GraphResourceInfo::Imported(
                GraphResourceImportInfo::RayTracingAcceleration { resource, .. },
            ) => {
                &&& tr.external_raytracing_ac@.contains_key(id)
                &&& tr.external_raytracing_ac@[id] == resource
                &&& has_no_image(tr, id) && tr.buffer_of(id) is None
            },
        },
{
    let n = infos.len() as int;
    let a = |id: u32| made_image(infos, placements, objects, id);
    let b = |id: u32| made_buffer(infos, placements, objects, id);
    let c = |id: u32| made_sampler(infos, objects, id);
    let d = |id: u32| imported_image(infos, id);
    let e = |id: u32| imported_buffer(infos, id);
    let f = |id: u32| imported_sampler(infos, id);
    let g = |id: u32| imported_structure(infos, id);
    assert(tr.transient_images@.contains_key(id) <==> id < n && a(id) is Some);
    assert(tr.transient_buffers@.contains_key(id) <==> id < n && b(id) is Some);
    assert(tr.transient_samplers@.contains_key(id) <==> id < n && c(id) is Some);
    assert(tr.external_images@.contains_key(id) <==> id < n && d(id) is Some);
    assert(tr.external_buffers@.contains_key(id) <==> id < n && e(id) is Some);
    assert(tr.external_samplers@.contains_key(id) <==> id < n && f(id) is Some);
    assert(tr.external_raytracing_ac@.contains_key(id) <==> id < n && g(id) is Some);
}

/// A buffer that is found is the one bound to the resource, the graph's own first; one end
/// of a copy is the buffer it names.
pub proof fn law_copies_reach_their_buffers(
    tr: TransientResources,
    copies: Seq<(CopyEnd, CopyEnd, BufferCopy)>,
    i: int,
)
    requires
        0 <= i < copies.len(),
        forall|k: int| 0 <= k < copies.len() ==> tr.resolves(#[trigger] copies[k]),
    ensures
        ({
            let (src, dst, region) = tr.resolved(copies)[i];
            &&& tr.resolved(copies).len() == copies.len()
            &&& region == copies[i].2
            &&& (copies[i].0 matches CopyEnd::Raw(buffer) ==> src == buffer)
            &&& (copies[i].1 matches CopyEnd::Raw(buffer) ==> dst == buffer)
            &&& (copies[i].0 matches CopyEnd::Handle(id) ==> (tr.transient_buffers@.contains_key(id)
                && src == tr.transient_buffers@[id].token) || (!tr.transient_buffers@.contains_key(
                id,
            ) && tr.external_buffers@.contains_key(id) && src == tr.external_buffers@[id].token))
            &&& (copies[i].1 matches CopyEnd::Handle(id) ==> (tr.transient_buffers@.contains_key(id)
                && dst == tr.transient_buffers@[id].token) || (!tr.transient_buffers@.contains_key(
                id,
            ) && tr.external_buffers@.contains_key(id) && dst == tr.external_buffers@[id].token))
        }),
{
    assert(tr.resolves(copies[i]));
}

} // verus!
