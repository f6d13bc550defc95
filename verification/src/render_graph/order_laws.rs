//! Orders: of passes, of indices, and what an access says of the order it needs.

use petgraph::graph::DiGraph;
use vk_sync_fork::AccessType;
use vstd::prelude::*;

use crate::error::{SrError, SrResult};
use crate::render_graph::access::{is_write_access, starts_write_epoch};
use crate::render_graph::dep_graph::{edges, node_weights};
use crate::render_graph::interval_set::{cover_range, holds_byte, is_interval_set, range_covered};
use crate::render_graph::schedule::{
    is_ready, kahn_toposort, ranks_edges, schedules, Edges,
};
use crate::render_graph::sorting::{index_view, key_view, lemma_stable_order, sort_indices};

verus! {

/// Whether `order` runs a graph of `n` nodes as it has to be run: every node once, and
/// none before one that it depends on. Where a later node comes after an earlier one in
/// spite of its number, it had to: something that it depends on was not run yet.
pub open spec fn runs_in_order(list: Edges, n: int, order: Seq<int>) -> bool {
    &&& order.len() == n
    &&& forall|k: int| 0 <= k < n ==> 0 <= #[trigger] order[k] < n
    &&& forall|k: int, l: int| #![trigger order[k], order[l]]
        0 <= k < l < n ==> order[k] != order[l]
    &&& forall|e: int, k: int, l: int| #![trigger list[e], order[k], order[l]]
        0 <= e < list.len() && 0 <= k < n && 0 <= l < n && order[k] == list[e].0 && order[l]
            == list[e].1 ==> k < l
    &&& forall|k: int, l: int| #![trigger order[k], order[l]]
        0 <= k < l < n && order[l] < order[k] ==> held_back(list, order, k, l)
}

/// Whether the node at `l` depends on one that stands at `k` or behind it.
pub open spec fn held_back(list: Edges, order: Seq<int>, k: int, l: int) -> bool {
    exists|e: int, j: int| #![trigger list[e], order[j]]
        0 <= e < list.len() && list[e].1 == order[l] && k <= j < order.len() && order[j]
            == list[e].0
}

proof fn lemma_runs(weights: Seq<usize>, list: Edges, order: Seq<int>, schedule: Seq<usize>)
    requires
        schedules(weights, list, order, schedule),
        forall|e: int|
            0 <= e < list.len() ==> (#[trigger] list[e]).0 < weights.len() && list[e].1
                < weights.len(),
    ensures
        runs_in_order(list, weights.len() as int, order),
{
    let n = weights.len() as int;
    assert forall|k: int| 0 <= k < n implies 0 <= #[trigger] order[k] < n by {
        assert(is_ready(list, n, order.take(k), order[k]));
    }
    assert forall|k: int, l: int| #![trigger order[k], order[l]]
        0 <= k < l < n implies order[k] != order[l] by {
        assert(is_ready(list, n, order.take(l), order[l]));
        assert(order.take(l)[k] == order[k]);
    }
    assert forall|e: int, k: int, l: int| #![trigger list[e], order[k], order[l]]
        0 <= e < list.len() && 0 <= k < n && 0 <= l < n && order[k] == list[e].0 && order[l]
            == list[e].1 implies k < l by {
        assert(is_ready(list, n, order.take(l), order[l]));
        assert(order.take(l).contains(list[e].0 as int));
        let j = choose|j: int| 0 <= j < order.take(l).len() && order.take(l)[j] == list[e].0;
        assert(order[j] == order[k]);
        if l <= k {
            assert(order[j] != order[k]);
        }
    }
    assert forall|k: int, l: int| #![trigger order[k], order[l]]
        0 <= k < l < n && order[l] < order[k] implies held_back(list, order, k, l) by {
        let i = order[l];
        let done = order.take(k);
        assert(is_ready(list, n, order.take(k), order[k]));
        assert(!is_ready(list, n, done, i));
        assert(!done.contains(i)) by {
            if done.contains(i) {
                let j = choose|j: int| 0 <= j < done.len() && done[j] == i;
                assert(order[j] == order[l]);
            }
        }
        let e = choose|e: int|
            0 <= e < list.len() && (#[trigger] list[e]).1 == i && !done.contains(list[e].0 as int);
        let a = list[e].0 as int;
        assert(is_ready(list, n, order.take(l), order[l]));
        assert(order.take(l).contains(a));
        let j = choose|j: int| 0 <= j < order.take(l).len() && order.take(l)[j] == a;
        assert(order[j] == a);
        assert(k <= j) by {
            if j < k {
                assert(done[j] == a);
            }
        }
    }
}

/// Passes run in an order that keeps every dependency, as near to the order of their
/// numbers as that allows; and there is one unless passes wait for each other in a circle,
/// which no ranking of them could order.
pub proof fn law_every_dependency_is_kept(
    graph: DiGraph<usize, Vec<u32>>,
    r: SrResult<Vec<usize>>,
    rank: Seq<int>,
) -> (order: Seq<int>)
    requires
        call_ensures(kahn_toposort, (&graph,), r),
        rank.len() == node_weights(graph).len(),
        forall|e: int|
            0 <= e < edges(graph).len() ==> (#[trigger] edges(graph)[e]).0 < node_weights(
                graph,
            ).len() && edges(graph)[e].1 < node_weights(graph).len(),
    ensures
        r matches Ok(schedule) ==> {
            &&& runs_in_order(edges(graph), node_weights(graph).len() as int, order)
            &&& schedule@.len() == order.len()
            &&& forall|k: int|
                0 <= k < order.len() ==> #[trigger] schedule@[k] == node_weights(graph)[order[k]]
        },
        r is Err ==> exists|e: int|
            0 <= e < edges(graph).len() && rank[(#[trigger] edges(graph)[e]).0 as int]
                >= rank[edges(graph)[e].1 as int],
{
    let weights = node_weights(graph);
    let list = edges(graph);
    match r {
        Ok(schedule) => {
            let order = choose|order: Seq<int>| #[trigger]
                schedules(weights, list, order, schedule@);
            lemma_runs(weights, list, order, schedule@);
            order
        },
        Err(_) => {
            assert(!ranks_edges(list, weights.len() as int, rank));
            Seq::empty()
        },
    }
}

/// Sorting lists every index once, by ascending keys; of equal keys the first comes first.
pub proof fn law_sorting_lists_every_index_in_order(
    keys: Vec<(u64, u64)>,
    order: Vec<usize>,
    i: int,
    j: int,
)
    requires
        call_ensures(sort_indices, (&keys,), order),
        0 <= i < j < keys@.len(),
    ensures
        order@.len() == keys@.len(),
        order@[i] < keys@.len(),
        order@[j] < keys@.len(),
        order@[i] != order@[j],
        ({
            let a = keys@[order@[i] as int];
            let b = keys@[order@[j] as int];
            a.0 < b.0 || (a.0 == b.0 && a.1 < b.1) || (a == b && order@[i] < order@[j])
        }),
{
    let k = key_view(keys@);
    lemma_stable_order(k);
    let view = index_view(order@);
    assert(view.len() == order@.len());
    assert(view[i] == order@[i] && view[j] == order@[j]);
    assert(0 <= view[i] < k.len() && 0 <= view[j] < k.len());
}

/// What was covered stays covered, and so does what is covered anew; nothing else is.
pub proof fn law_covered_ranges_stay_covered(
    covered: &mut Vec<(u64, u64)>,
    start: u64,
    end: u64,
    from: u64,
    to: u64,
    inside: bool,
    after: Vec<(u64, u64)>,
)
    requires
        start < end,
        from < to,
        is_interval_set(old(covered)@),
        call_ensures(cover_range, (covered, start, end), ()),
        *final(covered) == after,
        call_ensures(range_covered, (&after, from, to), inside),
    ensures
        start <= from && to <= end ==> inside,
        (forall|b: int| from <= b < to ==> holds_byte(old(covered)@, b)) ==> inside,
        inside ==> forall|b: int|
            from <= b < to ==> #[trigger] holds_byte(old(covered)@, b) || start <= b < end,
{
    if forall|b: int| from <= b < to ==> holds_byte(old(covered)@, b) {
        assert forall|b: int| from <= b < to implies holds_byte(after@, b) by {
            assert(holds_byte(old(covered)@, b));
        }
    }
    if start <= from && to <= end {
        assert forall|b: int| from <= b < to implies holds_byte(after@, b) by {}
    }
    if inside {
        assert forall|b: int| from <= b < to implies #[trigger] holds_byte(old(covered)@, b)
            || start <= b < end by {
            assert(holds_byte(after@, b));
        }
    }
}

/// Whether an access only reads.
pub open spec fn only_reads(access: AccessType) -> bool {
    matches!(
        access,
        AccessType::CommandBufferReadNVX
            | AccessType::IndirectBuffer
            | AccessType::IndexBuffer
            | AccessType::VertexBuffer
            | AccessType::VertexShaderReadUniformBuffer
            | AccessType::MeshShaderReadUniformBuffer
            | AccessType::TaskShaderReadUniformBuffer
            | AccessType::TessellationControlShaderReadUniformBuffer
            | AccessType::TessellationEvaluationShaderReadUniformBuffer
            | AccessType::GeometryShaderReadUniformBuffer
            | AccessType::FragmentShaderReadUniformBuffer
            | AccessType::ComputeShaderReadUniformBuffer
            | AccessType::AnyShaderReadUniformBuffer
            | AccessType::AnyShaderReadUniformBufferOrVertexBuffer
            | AccessType::RayTracingShaderReadAccelerationStructure
            | AccessType::AccelerationStructureBuildRead
            | AccessType::VertexShaderReadOther
            | AccessType::MeshShaderReadOther
            | AccessType::TaskShaderReadOther
            | AccessType::TessellationControlShaderReadOther
            | AccessType::TessellationEvaluationShaderReadOther
            | AccessType::GeometryShaderReadOther
            | AccessType::FragmentShaderReadOther
            | AccessType::ComputeShaderReadOther
            | AccessType::AnyShaderReadOther
            | AccessType::HostRead
            | AccessType::RayTracingShaderReadOther
            | AccessType::ColorAttachmentRead
            | AccessType::FragmentShaderReadDepthStencilInputAttachment
            | AccessType::DepthStencilAttachmentRead
            | AccessType::RayTracingShaderReadDepthStencilInputAttachment
            | AccessType::VertexShaderReadSampledImageOrUniformTexelBuffer
            | AccessType::MeshShaderReadSampledImageOrUniformTexelBuffer
            | AccessType::TaskShaderReadSampledImageOrUniformTexelBuffer
            | AccessType::TessellationControlShaderReadSampledImageOrUniformTexelBuffer
            | AccessType::TessellationEvaluationShaderReadSampledImageOrUniformTexelBuffer
            | AccessType::GeometryShaderReadSampledImageOrUniformTexelBuffer
            | AccessType::FragmentShaderReadSampledImageOrUniformTexelBuffer
            | AccessType::FragmentShaderReadColorInputAttachment
            | AccessType::ComputeShaderReadSampledImageOrUniformTexelBuffer
            | AccessType::AnyShaderReadSampledImageOrUniformTexelBuffer
            | AccessType::RayTracingShaderReadSampledImageOrUniformTexelBuffer
            | AccessType::RayTracingShaderReadColorInputAttachment
            | AccessType::TransferRead
            | AccessType::Present
    )
}

/// An access either only reads or writes, but for the one that says that there is nothing:
/// it writes nothing, and yet what comes behind it has to wait, as behind a write.
pub proof fn law_accesses_read_or_write(
    access: AccessType,
    written: bool,
    awaited: bool,
)
    requires
        call_ensures(is_write_access, (access,), written),
        call_ensures(starts_write_epoch, (access,), awaited),
    ensures
        only_reads(access) ==> !written && !awaited,
        !only_reads(access) && access != AccessType::Nothing ==> written && awaited,
        access == AccessType::Nothing ==> !written && awaited,
{
}

} // verus!
