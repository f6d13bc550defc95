//! What a compiled frame comes to, in terms of what was declared and measured.

use vk_sync_fork::AccessType;
use vstd::prelude::*;

use crate::render_graph::access::{PassResourceAccessType, ResourceRef};
use crate::render_graph::alias::{
    is_power_of_two, larger, live_together, AliasStrategy, BucketReqs, Placement,
};
use crate::render_graph::alias_laws::{
    allocatable, grouped, law_addresses_are_aligned, law_live_resources_share_no_byte,
    law_off_shares_nothing, lemma_power_of_two_positive, placed_well, whole_plan,
};
use crate::render_graph::analysis::{
    listed_touches, touches, usage_matches, usages_match, usages_of, PassDecl, Touch,
};
use crate::render_graph::compile::{declared, lemma_lifetimes_inside, FramePlan};
use crate::render_graph::frame_laws::{lemma_places, lists_touches, names};
use crate::render_graph::analysis_laws::{in_pass_order, lemma_touches_in_order};
use crate::render_graph::graph::{AnyRenderPass, RenderGraph};
use crate::render_graph::memory_plan::{
    alias_list, alias_resource, groups_of, law_every_used_resource_has_a_place, lemma_alias_list,
    lemma_plan_input, measured, memory_of, needs_place, plans_frame, MemoryRequirements,
};
use crate::render_graph::predecessors::Usages;
use crate::render_graph::resource::{GraphResourceDesc, GraphResourceInfo};

verus! {

// ---------------------------------------------------------------------------
// Who uses what
// ---------------------------------------------------------------------------

/// Whether a pass declares an access to a resource.
pub open spec fn uses(passes: Seq<AnyRenderPass>, p: int, id: u32) -> bool {
    0 <= p < passes.len() && (names(passes[p].data().read@, id) || names(
        passes[p].data().write@,
        id,
    ))
}

/// Whether a resource is in use at a pass: some pass up to there uses it, and some pass
/// from there on.
pub open spec fn in_use_at(passes: Seq<AnyRenderPass>, p: int, id: u32) -> bool {
    exists|a: int, b: int| #[trigger] uses(passes, a, id) && #[trigger] uses(passes, b, id) && a <= p <= b
}

/// What a touch was declared as.
pub proof fn lemma_touch_origin(passes: Seq<PassDecl>, n: nat, i: int) -> (k: int)
    requires
        n <= passes.len() <= usize::MAX,
        0 <= i < touches(passes, n).len(),
    ensures
        ({
            let x = touches(passes, n)[i];
            let refs = if x.write {
                passes[x.pass as int].1@
            } else {
                passes[x.pass as int].0@
            };
            &&& x.pass < n
            &&& 0 <= k < refs.len()
            &&& refs[k].id == x.id
            &&& refs[k].access == x.access
        }),
    decreases n,
{
    let m = (n - 1) as nat;
    let rest = touches(passes, m);
    let reads = listed_touches(passes[m as int].0@, m as usize, false);
    if i < rest.len() {
        lemma_touch_origin(passes, m, i)
    } else if i < rest.len() + reads.len() {
        i - rest.len()
    } else {
        i - rest.len() - reads.len()
    }
}

/// Where a declared access stands among the touches.
pub proof fn lemma_touch_there(passes: Seq<PassDecl>, n: nat, p: int, write: bool, k: int) -> (i: int)
    requires
        0 <= p < n <= passes.len() <= usize::MAX,
        0 <= k < (if write {
            passes[p].1@
        } else {
            passes[p].0@
        }).len(),
    ensures
        0 <= i < touches(passes, n).len(),
        ({
            let r = (if write {
                passes[p].1@
            } else {
                passes[p].0@
            })[k];
            touches(passes, n)[i] == (Touch { pass: p as usize, id: r.id, write, access: r.access })
        }),
    decreases n,
{
    let m = (n - 1) as nat;
    let rest = touches(passes, m);
    let reads = listed_touches(passes[m as int].0@, m as usize, false);
    if p < m {
        lemma_touch_there(passes, m, p, write, k)
    } else if write {
        rest.len() + reads.len() + k
    } else {
        rest.len() + k
    }
}

/// Lifetimes are what the passes declare: a resource that some pass uses lives from the
/// first pass that uses it to the last, and nothing else lives.
pub proof fn law_lifetimes_are_uses(passes: Seq<AnyRenderPass>, usages: Usages, id: u32)
    requires
        passes.len() <= usize::MAX,
        usages_match(usages, touches(declared(passes), passes.len())),
    ensures
        usages.contains_key(id) <==> exists|p: int| #[trigger] uses(passes, p, id),
        usages.contains_key(id) ==> uses(passes, usages[id].first_pass as int, id) && uses(
            passes,
            usages[id].last_pass as int,
            id,
        ) && usages[id].first_pass <= usages[id].last_pass,
        forall|p: int| #[trigger]
            uses(passes, p, id) ==> usages[id].first_pass <= p <= usages[id].last_pass,
{
    let ds = declared(passes);
    let n = passes.len();
    let t = touches(ds, n);
    let list = usages_of(t, id);
    let at = lemma_places(t, id);
    lemma_touches_in_order(ds, n);
    assert(usages.contains_key(id) <==> list.len() > 0);
    assert forall|k: int| 0 <= k < list.len() implies #[trigger] uses(passes, list[k].0 as int, id) by {
        let i = at[k];
        let j = lemma_touch_origin(ds, n, i);
        let p = t[i].pass as int;
        if t[i].write {
            assert(passes[p].data().write@[j].id == id);
        } else {
            assert(passes[p].data().read@[j].id == id);
        }
    }
    assert forall|p: int| #[trigger] uses(passes, p, id) implies usages.contains_key(id)
        && usages[id].first_pass <= p <= usages[id].last_pass by {
        let write = names(passes[p].data().write@, id);
        let refs = if write {
            passes[p].data().write@
        } else {
            passes[p].data().read@
        };
        let j = choose|j: int| 0 <= j < refs.len() && (#[trigger] refs[j]).id == id;
        let i = lemma_touch_there(ds, n, p, write, j);
        assert(at.contains(i));
        let k = choose|k: int| 0 <= k < at.len() && at[k] == i;
        assert(list[k].0 == p);
        assert(usage_matches(usages[id], t, id));
        if 0 < k {
            assert(at[0] < at[k]);
        }
        if k < at.len() - 1 {
            assert(at[k] < at[at.len() - 1]);
        }
        assert(t[at[0]].pass <= t[at[k]].pass <= t[at[at.len() - 1]].pass);
    }
    if list.len() > 0 {
        assert(usage_matches(usages[id], t, id));
        assert(uses(passes, list[0].0 as int, id));
        assert(uses(passes, list[list.len() - 1].0 as int, id));
    }
}

// ---------------------------------------------------------------------------
// Memory
// ---------------------------------------------------------------------------

/// Whether the graph makes this, and has to find memory for it, in `location`.
pub open spec fn asks_for_memory(
    info: GraphResourceInfo,
    location: crate::render_graph::alias::MemoryLocation,
) -> bool {
    ||| info matches GraphResourceInfo::Created(GraphResourceDesc::Image(d)) && d.location
        == location
    ||| info matches GraphResourceInfo::Created(GraphResourceDesc::Buffer(d))
        && d.memory_location == location
}

/// Whether a place holds what a device asks for: as many bytes, inside the bucket, in a
/// kind of memory that suits.
pub open spec fn place_holds(
    place: Placement,
    buckets: Seq<BucketReqs>,
    asked: MemoryRequirements,
    info: GraphResourceInfo,
) -> bool {
    let bucket = buckets[place.bucket as int];
    &&& place.size == asked.size
    &&& place.bucket < buckets.len()
    &&& place.offset + asked.size <= bucket.size
    &&& bucket.memory_type_bits != 0
    &&& bucket.memory_type_bits & asked.memory_type_bits == bucket.memory_type_bits
    &&& asks_for_memory(info, bucket.location)
}

/// Whether a place is aligned as a device asks for, in its bucket and wherever the bucket
/// itself is put as it asks for.
pub open spec fn place_aligned(
    place: Placement,
    buckets: Seq<BucketReqs>,
    asked: MemoryRequirements,
) -> bool {
    let bucket = buckets[place.bucket as int];
    &&& place.offset as int % (asked.alignment as int) == 0
    &&& forall|base: int| #![trigger base % (bucket.alignment as int)]
        base % (bucket.alignment as int) == 0 ==> (base + place.offset) % (asked.alignment as int)
            == 0
}

/// Memory is found for every image and buffer that the graph makes and a pass uses, and
/// for nothing else. The place of each holds what the device asked for it, aligned where
/// the granularity is a power of two. Two that are in use at one pass hold no byte in
/// common, counted in what the device asked for; with aliasing off no two are in one
/// bucket.
pub proof fn law_compiled_memory_holds_its_resources(
    graph: RenderGraph,
    after: RenderGraph,
    frame: FramePlan,
    strategy: AliasStrategy,
    requirements: Map<u32, MemoryRequirements>,
    granularity: u64,
)
    requires
        graph.virtual_resources@.len() <= u32::MAX,
        after.passes@.len() <= usize::MAX,
        measured(graph.virtual_resources@, requirements),
        graph.compiles_to(after, frame, strategy, requirements, granularity),
    ensures
        forall|id: u32| #[trigger]
            frame.placements@.contains_key(id) <==> id < graph.virtual_resources@.len() && (exists|
                location: crate::render_graph::alias::MemoryLocation,
            | #[trigger] asks_for_memory(graph.virtual_resources@[id as int], location)) && exists|
                p: int,
            | #[trigger] uses(after.passes@, p, id),
        forall|id: u32| #[trigger]
            frame.placements@.contains_key(id) ==> place_holds(
                frame.placements@[id],
                frame.buckets@,
                requirements[id],
                graph.virtual_resources@[id as int],
            ),
        is_power_of_two(larger(granularity, 1)) ==> forall|id: u32| #[trigger]
            frame.placements@.contains_key(id) ==> place_aligned(
                frame.placements@[id],
                frame.buckets@,
                requirements[id],
            ),
        forall|x: u32, y: u32, p: int|
            #![trigger in_use_at(after.passes@, p, x), in_use_at(after.passes@, p, y)]
            x != y && frame.placements@.contains_key(x) && frame.placements@.contains_key(y)
                && in_use_at(after.passes@, p, x) && in_use_at(after.passes@, p, y)
                && requirements[x].size > 0 && requirements[y].size > 0 ==> {
                let a = frame.placements@[x];
                let b = frame.placements@[y];
                a.bucket != b.bucket || a.offset + requirements[x].size <= b.offset || b.offset
                    + requirements[y].size <= a.offset
            },
        strategy == AliasStrategy::Off ==> forall|x: u32, y: u32|
            #![trigger frame.placements@.contains_key(x), frame.placements@.contains_key(y)]
            x != y && frame.placements@.contains_key(x) && frame.placements@.contains_key(y)
                ==> frame.placements@[x].bucket != frame.placements@[y].bucket,
{
    let infos = graph.virtual_resources@;
    let usages = frame.analysis.resource_usages@;
    let components = frame.analysis.components@;
    let passes = after.passes@;
    let n = passes.len() as int;
    let placements = frame.placements@;
    let buckets = frame.buckets@;
    let t = touches(declared(passes), passes.len());
    lemma_lifetimes_inside(declared(passes), usages);
    assert(plans_frame(
        placements,
        buckets,
        strategy,
        infos,
        requirements,
        usages,
        components,
        n,
        granularity,
    ));
    law_every_used_resource_has_a_place(
        placements,
        buckets,
        strategy,
        infos,
        requirements,
        usages,
        components,
        n,
        granularity,
    );
    let resources = alias_list(infos, requirements, usages, infos.len());
    let groups = choose|groups: Seq<Vec<u32>>|
        {
            &&& #[trigger] groups_of(groups, components, infos, usages)
            &&& (placements, buckets) == whole_plan(strategy, resources, groups, granularity)
        };
    lemma_plan_input(infos, requirements, usages, components, n, groups);
    lemma_alias_list(infos, requirements, usages, infos.len());
    assert forall|id: u32| #[trigger]
        placements.contains_key(id) <==> id < infos.len() && (exists|
            location: crate::render_graph::alias::MemoryLocation,
        | #[trigger] asks_for_memory(infos[id as int], location)) && exists|p: int| #[trigger]
            uses(passes, p, id) by {
        law_lifetimes_are_uses(passes, usages, id);
        assert(placements.contains_key(id) <==> needs_place(infos, usages, id));
        if id < infos.len() && memory_of(infos[id as int]) is Some {
            assert(asks_for_memory(infos[id as int], memory_of(infos[id as int])->0));
        }
    }
    assert forall|id: u32| #[trigger] placements.contains_key(id) implies place_holds(
        placements[id],
        buckets,
        requirements[id],
        infos[id as int],
    ) by {
        let r = alias_resource(infos, requirements, usages, id);
        let place = placements[id];
        let bucket = buckets[place.bucket as int];
        assert(needs_place(infos, usages, id));
        assert(placed_well(r, (placements, buckets), larger(granularity, 1)));
        assert(allocatable(bucket));
    }
    if is_power_of_two(larger(granularity, 1)) {
        assert forall|id: u32| #[trigger] placements.contains_key(id) implies place_aligned(
            placements[id],
            buckets,
            requirements[id],
        ) by {
            let r = alias_resource(infos, requirements, usages, id);
            let place = placements[id];
            let bucket = buckets[place.bucket as int];
            assert(needs_place(infos, usages, id));
            assert(placed_well(r, (placements, buckets), larger(granularity, 1)));
            assert(allocatable(bucket));
            assert(resources.contains(r));
            let i = choose|i: int| 0 <= i < resources.len() && resources[i] == r;
            assert(grouped(groups, resources[i].id));
            assert forall|base: int| #![trigger base % (bucket.alignment as int)]
                base % (bucket.alignment as int) == 0 implies (base + place.offset) % (
            requirements[id].alignment as int) == 0 by {
                law_addresses_are_aligned(strategy, resources, groups, granularity, i, base);
            }
            lemma_power_of_two_positive(bucket.alignment);
            vstd::arithmetic::div_mod::lemma_small_mod(0, bucket.alignment as nat);
            assert(0int % (bucket.alignment as int) == 0);
            assert((0 + place.offset) % (requirements[id].alignment as int) == 0);
        }
    }
    assert forall|x: u32, y: u32, p: int|
        #![trigger in_use_at(passes, p, x), in_use_at(passes, p, y)]
        x != y && placements.contains_key(x) && placements.contains_key(y) && in_use_at(
            passes,
            p,
            x,
        ) && in_use_at(passes, p, y) && requirements[x].size > 0 && requirements[y].size > 0 implies {
        let a = placements[x];
        let b = placements[y];
        a.bucket != b.bucket || a.offset + requirements[x].size <= b.offset || b.offset
            + requirements[y].size <= a.offset
    } by {
        law_lifetimes_are_uses(passes, usages, x);
        law_lifetimes_are_uses(passes, usages, y);
        let rx = alias_resource(infos, requirements, usages, x);
        let ry = alias_resource(infos, requirements, usages, y);
        assert(needs_place(infos, usages, x) && needs_place(infos, usages, y));
        assert(resources.contains(rx) && resources.contains(ry));
        let i = choose|i: int| 0 <= i < resources.len() && resources[i] == rx;
        let j = choose|j: int| 0 <= j < resources.len() && resources[j] == ry;
        assert(live_together(rx, ry));
        law_live_resources_share_no_byte(strategy, resources, groups, granularity, i, j);
        assert(place_holds(placements[x], buckets, requirements[x], infos[x as int]));
        assert(place_holds(placements[y], buckets, requirements[y], infos[y as int]));
        assert(!placements[x].meets(placements[y]));
    }
    if strategy == AliasStrategy::Off {
        assert forall|x: u32, y: u32|
            #![trigger placements.contains_key(x), placements.contains_key(y)]
            x != y && placements.contains_key(x) && placements.contains_key(
                y,
            ) implies placements[x].bucket != placements[y].bucket by {
            let rx = alias_resource(infos, requirements, usages, x);
            let ry = alias_resource(infos, requirements, usages, y);
            assert(needs_place(infos, usages, x) && needs_place(infos, usages, y));
            assert(resources.contains(rx) && resources.contains(ry));
            let i = choose|i: int| 0 <= i < resources.len() && resources[i] == rx;
            let j = choose|j: int| 0 <= j < resources.len() && resources[j] == ry;
            law_off_shares_nothing(resources, groups, granularity, i, j);
        }
    }
}

} // verus!
