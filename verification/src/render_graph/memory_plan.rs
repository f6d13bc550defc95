//! Backing for the resources a graph makes: which of them take part in aliasing, where
//! each lands, and what has to be allocated.

use std::collections::{BTreeMap, HashMap};

use vstd::prelude::*;

use crate::error::{SrError, SrResult};
use crate::render_graph::alias::{
    is_power_of_two, larger, live_together, plan, AliasResource, AliasStrategy, BucketReqs,
    MemoryLocation, Placement,
};
use crate::render_graph::alias_laws::{
    allocatable, grouped, grouped_in, law_every_bucket_is_usable,
    law_every_grouped_resource_is_placed_well, law_live_resources_share_no_byte,
    law_off_shares_nothing, listed_once, lists, placed_well, plan_input, plannable, whole_plan,
};
use crate::render_graph::analysis::ResourceLifetimeUsage;
use crate::render_graph::components::{
    are_components, connected, lemma_connected_self, lists_resources, PassComponent,
};
use crate::render_graph::predecessors::{
    addressable, at_byte, has_predecessors, is_placed, keeps_live_apart, kept_candidates,
    law_every_reuse_is_ordered, law_predecessors_are_earlier_occupants, waits_for, Usages,
};
use crate::render_graph::resource::{GraphResourceDesc, GraphResourceInfo};
use crate::render_graph::sorting::strictly_ascending;
use crate::text::{decimal, push_decimal};

verus! {

broadcast use {vstd::std_specs::hash::group_hash_axioms, vstd::std_specs::btree::group_btree_axioms};

/// What a device asks of the memory behind an image or a buffer.
#[derive(Clone, Copy, Debug, PartialEq, Eq, Structural)]
pub struct MemoryRequirements {
    pub size: u64,
    pub alignment: u64,
    pub memory_type_bits: u32,
}

/// Requirements by resource id.
pub type Requirements = Map<u32, MemoryRequirements>;

/// Where the memory of a resource has to lie, for images and buffers that the graph
/// makes. Nothing else takes part in aliasing.
pub open spec fn memory_of(info: GraphResourceInfo) -> Option<MemoryLocation> {
    match info {
        GraphResourceInfo::Created(GraphResourceDesc::Image(desc)) => Some(desc.location),
        GraphResourceInfo::Created(GraphResourceDesc::Buffer(desc)) => Some(desc.memory_location),
        _ => None,
    }
}

/// Where the memory of a resource has to lie, if it takes part in aliasing.
pub fn aliased_memory(info: &GraphResourceInfo) -> (location: Option<MemoryLocation>)
    ensures
        location == memory_of(*info),
{
    match info {
        GraphResourceInfo::Created(GraphResourceDesc::Image(desc)) => Some(desc.location),
        GraphResourceInfo::Created(GraphResourceDesc::Buffer(desc)) => Some(desc.memory_location),
        _ => None,
    }
}

/// Whether resource `id` needs a place: it takes part in aliasing and some pass
/// touches it.
pub open spec fn needs_place(infos: Seq<GraphResourceInfo>, usages: Usages, id: u32) -> bool {
    id < infos.len() && memory_of(infos[id as int]) is Some && usages.contains_key(id)
}

/// Every image and buffer that the graph makes has been measured, with requirements
/// that a device can report: an alignment that is a power of two, and some memory type.
pub open spec fn measured(infos: Seq<GraphResourceInfo>, requirements: Requirements) -> bool {
    forall|id: u32|
        id < infos.len() && memory_of(#[trigger] infos[id as int]) is Some
            ==> requirements.contains_key(id) && is_power_of_two(requirements[id].alignment)
            && requirements[id].memory_type_bits != 0
}

/// A resource as the planner takes it.
pub open spec fn alias_resource(
    infos: Seq<GraphResourceInfo>,
    requirements: Requirements,
    usages: Usages,
    id: u32,
) -> AliasResource {
    AliasResource {
        id,
        size: requirements[id].size,
        alignment: requirements[id].alignment,
        memory_type_bits: requirements[id].memory_type_bits,
        location: memory_of(infos[id as int])->0,
        first_pass: usages[id].first_pass,
        last_pass: usages[id].last_pass,
    }
}

/// Those of the first `n` resources that need a place, by ascending id.
pub open spec fn alias_list(
    infos: Seq<GraphResourceInfo>,
    requirements: Requirements,
    usages: Usages,
    n: nat,
) -> Seq<AliasResource>
    decreases n,
{
    if n == 0 {
        Seq::empty()
    } else {
        let rest = alias_list(infos, requirements, usages, (n - 1) as nat);
        let id = (n - 1) as u32;
        if needs_place(infos, usages, id) {
            rest.push(alias_resource(infos, requirements, usages, id))
        } else {
            rest
        }
    }
}

/// Those of the first `n` ids that need a place.
pub open spec fn placed_ids(
    infos: Seq<GraphResourceInfo>,
    usages: Usages,
    ids: Seq<u32>,
    n: nat,
) -> Seq<u32>
    decreases n,
{
    if n == 0 {
        Seq::empty()
    } else {
        let rest = placed_ids(infos, usages, ids, (n - 1) as nat);
        if needs_place(infos, usages, ids[n - 1]) {
            rest.push(ids[n - 1])
        } else {
            rest
        }
    }
}

/// Whether `groups` are the resources of the components that need a place.
pub open spec fn groups_of(
    groups: Seq<Vec<u32>>,
    components: Seq<PassComponent>,
    infos: Seq<GraphResourceInfo>,
    usages: Usages,
) -> bool {
    &&& groups.len() == components.len()
    &&& forall|c: int|
        0 <= c < groups.len() ==> (#[trigger] groups[c])@ == placed_ids(
            infos,
            usages,
            components[c].resources@,
            components[c].resources@.len(),
        )
}

/// The resources that need a place, as the planner takes them. Resources that no pass
/// touches have no lifetime and get no place.
pub fn alias_resources(
    infos: &Vec<GraphResourceInfo>,
    requirements: &HashMap<u32, MemoryRequirements>,
    usages: &BTreeMap<u32, ResourceLifetimeUsage>,
) -> (resources: Vec<AliasResource>)
    requires
        infos.len() <= u32::MAX,
        measured(infos@, requirements@),
    ensures
        resources@ == alias_list(infos@, requirements@, usages@, infos@.len()),
{
    let mut resources: Vec<AliasResource> = Vec::new();
    let mut i: usize = 0;
    while i < infos.len()
        invariant
            i <= infos.len() <= u32::MAX,
            measured(infos@, requirements@),
            resources@ == alias_list(infos@, requirements@, usages@, i as nat),
        decreases infos.len() - i,
    {
        let id: u32 = i as u32;
        proof {
            assert(infos@[id as int] == infos@[i as int]);
        }
        match (aliased_memory(&infos[i]), requirements.get(&id), usages.get(&id)) {
            (Some(location), Some(reqs), Some(usage)) => {
                resources.push(
                    AliasResource {
                        id,
                        size: reqs.size,
                        alignment: reqs.alignment,
                        memory_type_bits: reqs.memory_type_bits,
                        location,
                        first_pass: usage.first_pass,
                        last_pass: usage.last_pass,
                    },
                );
            },
            _ => {},
        }
        i = i + 1;
    }
    resources
}

/// Those of some ids that need a place.
fn keep_placed(
    infos: &Vec<GraphResourceInfo>,
    usages: &BTreeMap<u32, ResourceLifetimeUsage>,
    ids: &Vec<u32>,
) -> (out: Vec<u32>)
    ensures
        out@ == placed_ids(infos@, usages@, ids@, ids@.len()),
{
    let mut out: Vec<u32> = Vec::new();
    let mut i: usize = 0;
    while i < ids.len()
        invariant
            i <= ids.len(),
            out@ == placed_ids(infos@, usages@, ids@, i as nat),
        decreases ids.len() - i,
    {
        let id: u32 = ids[i];
        if (id as usize) < infos.len() && aliased_memory(&infos[id as usize]).is_some()
            && usages.contains_key(&id) {
            out.push(id);
        }
        i = i + 1;
    }
    out
}

/// The resources that need a place, component by component.
pub fn alias_components(
    infos: &Vec<GraphResourceInfo>,
    usages: &BTreeMap<u32, ResourceLifetimeUsage>,
    components: &Vec<PassComponent>,
) -> (groups: Vec<Vec<u32>>)
    ensures
        groups_of(groups@, components@, infos@, usages@),
{
    let mut groups: Vec<Vec<u32>> = Vec::new();
    let mut c: usize = 0;
    while c < components.len()
        invariant
            c <= components.len(),
            groups.len() == c,
            forall|k: int|
                0 <= k < c ==> (#[trigger] groups[k])@ == placed_ids(
                    infos@,
                    usages@,
                    components[k].resources@,
                    components[k].resources@.len(),
                ),
        decreases components.len() - c,
    {
        groups.push(keep_placed(infos, usages, &components[c].resources));
        c = c + 1;
    }
    groups
}

/// What is said of a bucket that no memory type suits.
pub open spec fn no_memory_type(bucket: nat) -> Seq<char> {
    "transient bucket "@ + decimal(bucket) + ": empty memory_type_bits after aliasing"@
}

/// The first bucket that no memory type suits is at `b`.
pub open spec fn first_unsuitable(buckets: Seq<BucketReqs>, b: int) -> bool {
    &&& 0 <= b < buckets.len()
    &&& buckets[b].memory_type_bits == 0
    &&& forall|k: int| 0 <= k < b ==> (#[trigger] buckets[k]).memory_type_bits != 0
}

/// Is there a memory type for every bucket?
pub fn check_buckets(buckets: &Vec<BucketReqs>) -> (r: SrResult<()>)
    ensures
        match r {
            Ok(_) => forall|b: int|
                0 <= b < buckets.len() ==> (#[trigger] buckets[b]).memory_type_bits != 0,
            Err(e) => exists|b: int| #[trigger]
                first_unsuitable(buckets@, b) && e.is_custom(no_memory_type(b as nat)),
        },
{
    let mut b: usize = 0;
    while b < buckets.len()
        invariant
            b <= buckets.len(),
            forall|k: int| 0 <= k < b ==> (#[trigger] buckets[k]).memory_type_bits != 0,
        decreases buckets.len() - b,
    {
        if buckets[b].memory_type_bits == 0 {
            let mut text = String::from_str("transient bucket ");
            push_decimal(&mut text, b as u64);
            text.append(": empty memory_type_bits after aliasing");
            proof {
                assert(first_unsuitable(buckets@, b as int));
                assert(text@ =~= no_memory_type(b as nat));
            }
            return Err(SrError::new_custom(text));
        }
        b = b + 1;
    }
    Ok(())
}

// ---------------------------------------------------------------------------
// The planner's input
// ---------------------------------------------------------------------------

pub proof fn lemma_alias_list(
    infos: Seq<GraphResourceInfo>,
    requirements: Requirements,
    usages: Usages,
    n: nat,
)
    requires
        n <= infos.len() <= u32::MAX,
    ensures
        forall|i: int|
            #![trigger alias_list(infos, requirements, usages, n)[i]]
            0 <= i < alias_list(infos, requirements, usages, n).len() ==> {
                let r = alias_list(infos, requirements, usages, n)[i];
                &&& r.id < n
                &&& needs_place(infos, usages, r.id)
                &&& r == alias_resource(infos, requirements, usages, r.id)
            },
        forall|i: int, j: int|
            #![trigger alias_list(infos, requirements, usages, n)[i], alias_list(infos, requirements, usages, n)[j]]
            0 <= i < j < alias_list(infos, requirements, usages, n).len() ==> alias_list(
                infos,
                requirements,
                usages,
                n,
            )[i].id < alias_list(infos, requirements, usages, n)[j].id,
        forall|id: u32|
            id < n && #[trigger] needs_place(infos, usages, id) ==> alias_list(
                infos,
                requirements,
                usages,
                n,
            ).contains(alias_resource(infos, requirements, usages, id)),
    decreases n,
{
    if n > 0 {
        let rest = alias_list(infos, requirements, usages, (n - 1) as nat);
        let all = alias_list(infos, requirements, usages, n);
        let last = (n - 1) as u32;
        lemma_alias_list(infos, requirements, usages, (n - 1) as nat);
        assert forall|id: u32|
            id < n && #[trigger] needs_place(infos, usages, id) implies all.contains(
            alias_resource(infos, requirements, usages, id),
        ) by {
            let r = alias_resource(infos, requirements, usages, id);
            if id == last {
                assert(all[rest.len() as int] == r);
            } else {
                assert(rest.contains(r));
                let k = choose|k: int| 0 <= k < rest.len() && rest[k] == r;
                assert(all[k] == r);
            }
        }
    }
}

proof fn lemma_placed_ids(infos: Seq<GraphResourceInfo>, usages: Usages, ids: Seq<u32>, n: nat)
    requires
        n <= ids.len(),
        strictly_ascending(ids),
    ensures
        placed_ids(infos, usages, ids, n).no_duplicates(),
        forall|id: u32| #[trigger]
            placed_ids(infos, usages, ids, n).contains(id) <==> needs_place(infos, usages, id)
                && ids.take(n as int).contains(id),
    decreases n,
{
    let out = placed_ids(infos, usages, ids, n);
    if n > 0 {
        let rest = placed_ids(infos, usages, ids, (n - 1) as nat);
        let earlier = ids.take(n - 1);
        let now = ids.take(n as int);
        let last = ids[n - 1];
        lemma_placed_ids(infos, usages, ids, (n - 1) as nat);
        assert(now =~= earlier.push(last));
        assert(!earlier.contains(last)) by {
            if earlier.contains(last) {
                let k = choose|k: int| 0 <= k < earlier.len() && earlier[k] == last;
                assert(ids[k] < ids[n - 1]);
            }
        }
        assert(!rest.contains(last));
        assert forall|id: u32| #[trigger]
            out.contains(id) <==> needs_place(infos, usages, id) && now.contains(id) by {
            assert(rest.contains(id) <==> needs_place(infos, usages, id) && earlier.contains(id));
            if earlier.contains(id) {
                let k = choose|k: int| 0 <= k < earlier.len() && earlier[k] == id;
                assert(now[k] == id);
            }
            assert(now[n - 1] == last);
            if now.contains(id) && id != last {
                let k = choose|k: int| 0 <= k < now.len() && now[k] == id;
                assert(earlier[k] == id);
            }
            if rest.contains(id) {
                let k = choose|k: int| 0 <= k < rest.len() && rest[k] == id;
                assert(out[k] == id);
            }
            if needs_place(infos, usages, last) {
                assert(out[rest.len() as int] == last);
            }
            if out.contains(id) && !rest.contains(id) {
                let k = choose|k: int| 0 <= k < out.len() && out[k] == id;
                if k < rest.len() {
                    assert(rest[k] == id);
                }
            }
        }
    } else {
        assert(ids.take(0) =~= Seq::empty());
    }
}

/// What a frame hands to the planner is fit for it: every resource that needs a place
/// is listed once, and belongs to one component.
pub proof fn lemma_plan_input(
    infos: Seq<GraphResourceInfo>,
    requirements: Requirements,
    usages: Usages,
    components: Seq<PassComponent>,
    n: int,
    groups: Seq<Vec<u32>>,
)
    requires
        infos.len() <= u32::MAX,
        measured(infos, requirements),
        are_components(components, n, usages),
        groups_of(groups, components, infos, usages),
        forall|id: u32| #[trigger] usages.contains_key(id) ==> usages[id].first_pass < n,
    ensures
        plan_input(alias_list(infos, requirements, usages, infos.len()), groups),
        forall|id: u32| #[trigger] needs_place(infos, usages, id) ==> grouped(groups, id),
        forall|id: u32| #[trigger] needs_place(infos, usages, id) <==> lists(
            alias_list(infos, requirements, usages, infos.len()),
            id,
        ),
{
    let all = alias_list(infos, requirements, usages, infos.len());
    lemma_alias_list(infos, requirements, usages, infos.len());
    assert(plannable(all)) by {
        assert forall|i: int| 0 <= i < all.len() implies (#[trigger] all[i]).memory_type_bits != 0
            && is_power_of_two(all[i].alignment) by {
            let id = all[i].id;
            assert(memory_of(infos[id as int]) is Some);
        }
    }
    assert forall|c: int| 0 <= c < groups.len() implies (#[trigger] groups[c])@.no_duplicates()
        && forall|id: u32| #[trigger]
        groups[c]@.contains(id) <==> needs_place(infos, usages, id)
            && components[c].resources@.contains(id) by {
        let ids = components[c].resources@;
        assert(lists_resources(components[c], usages));
        lemma_placed_ids(infos, usages, ids, ids.len());
        assert(ids.take(ids.len() as int) =~= ids);
    }
    assert forall|c: int, d: int, id: u32|
        #![trigger grouped_in(groups, c, id), grouped_in(groups, d, id)]
        grouped_in(groups, c, id) && grouped_in(groups, d, id) implies c == d by {
        let p = usages[id].first_pass;
        assert(groups[c]@.contains(id));
        assert(groups[d]@.contains(id));
        assert(lists_resources(components[c], usages));
        assert(lists_resources(components[d], usages));
        assert(components[c].resources@.contains(id));
        assert(components[d].resources@.contains(id));
        let i = choose|i: int|
            0 <= i < components[c].passes@.len() && components[c].passes@[i] == p;
        let j = choose|j: int|
            0 <= j < components[d].passes@.len() && components[d].passes@[j] == p;
        lemma_connected_self(usages, p as int);
        assert(connected(
            usages,
            components[c].passes@[i] as int,
            components[d].passes@[j] as int,
        ));
    }
    assert(listed_once(groups));
    assert forall|id: u32| #[trigger] needs_place(infos, usages, id) implies grouped(
        groups,
        id,
    ) by {
        let p = usages[id].first_pass;
        assert(crate::render_graph::components::has_pass(components, p as int));
        let c = choose|c: int| #[trigger]
            crate::render_graph::components::component_has(components, c, p as int);
        assert(lists_resources(components[c], usages));
        assert(components[c].resources@.contains(id));
        assert(groups[c]@.contains(id));
        assert(grouped_in(groups, c, id));
    }
    assert forall|id: u32| #[trigger] needs_place(infos, usages, id) <==> lists(all, id) by {
        if needs_place(infos, usages, id) {
            let r = alias_resource(infos, requirements, usages, id);
            assert(all.contains(r));
            let k = choose|k: int| 0 <= k < all.len() && all[k] == r;
            assert(all[k].id == id);
        }
        if lists(all, id) {
            let k = choose|k: int| 0 <= k < all.len() && (#[trigger] all[k]).id == id;
            assert(needs_place(infos, usages, all[k].id));
        }
    }
}

/// What a plan of a frame's memory is.
pub open spec fn is_memory_plan(
    placements: Map<u32, Placement>,
    buckets: Seq<BucketReqs>,
    strategy: AliasStrategy,
    infos: Seq<GraphResourceInfo>,
    requirements: Requirements,
    usages: Usages,
    components: Seq<PassComponent>,
    granularity: u64,
) -> bool {
    exists|groups: Seq<Vec<u32>>|
        {
            &&& #[trigger] groups_of(groups, components, infos, usages)
            &&& (placements, buckets) == whole_plan(
                strategy,
                alias_list(infos, requirements, usages, infos.len()),
                groups,
                granularity,
            )
        }
}

/// Assigns every resource that needs it a bucket and an offset, and says what each
/// bucket has to be allocated with.
pub fn plan_memory(
    strategy: AliasStrategy,
    infos: &Vec<GraphResourceInfo>,
    requirements: &HashMap<u32, MemoryRequirements>,
    usages: &BTreeMap<u32, ResourceLifetimeUsage>,
    components: &Vec<PassComponent>,
    granularity: u64,
) -> (planned: (HashMap<u32, Placement>, Vec<BucketReqs>))
    requires
        infos.len() <= u32::MAX,
        measured(infos@, requirements@),
    ensures
        is_memory_plan(
            planned.0@,
            planned.1@,
            strategy,
            infos@,
            requirements@,
            usages@,
            components@,
            granularity,
        ),
{
    let resources = alias_resources(infos, requirements, usages);
    let groups = alias_components(infos, usages, components);
    proof {
        lemma_alias_list(infos@, requirements@, usages@, infos@.len());
        assert forall|i: int| 0 <= i < resources.len() implies is_power_of_two(
            (#[trigger] resources[i]).alignment,
        ) by {
            let id = resources[i].id;
            assert(memory_of(infos@[id as int]) is Some);
        }
    }
    plan(strategy, &resources, &groups, granularity)
}

/// What a frame's pass list and its memory plan have to do with each other: the
/// components are those of its passes, and lifetimes lie inside the frame.
pub open spec fn plans_frame(
    placements: Map<u32, Placement>,
    buckets: Seq<BucketReqs>,
    strategy: AliasStrategy,
    infos: Seq<GraphResourceInfo>,
    requirements: Requirements,
    usages: Usages,
    components: Seq<PassComponent>,
    n: int,
    granularity: u64,
) -> bool {
    &&& infos.len() <= u32::MAX
    &&& measured(infos, requirements)
    &&& are_components(components, n, usages)
    &&& forall|id: u32| #[trigger]
        usages.contains_key(id) ==> usages[id].first_pass <= usages[id].last_pass < n
    &&& is_memory_plan(
        placements,
        buckets,
        strategy,
        infos,
        requirements,
        usages,
        components,
        granularity,
    )
}

/// Every image and buffer of the graph's own that some pass touches, and nothing else,
/// gets a place: of its size, inside its bucket, aligned, in memory that suits it. Every
/// bucket can be allocated.
pub proof fn law_every_used_resource_has_a_place(
    placements: Map<u32, Placement>,
    buckets: Seq<BucketReqs>,
    strategy: AliasStrategy,
    infos: Seq<GraphResourceInfo>,
    requirements: Requirements,
    usages: Usages,
    components: Seq<PassComponent>,
    n: int,
    granularity: u64,
)
    requires
        plans_frame(
            placements,
            buckets,
            strategy,
            infos,
            requirements,
            usages,
            components,
            n,
            granularity,
        ),
    ensures
        forall|id: u32| #[trigger]
            placements.contains_key(id) <==> needs_place(infos, usages, id),
        forall|id: u32| #[trigger]
            placements.contains_key(id) ==> placed_well(
                alias_resource(infos, requirements, usages, id),
                (placements, buckets),
                larger(granularity, 1),
            ),
        forall|b: int| 0 <= b < buckets.len() ==> allocatable(#[trigger] buckets[b]),
        addressable(placements),
{
    let resources = alias_list(infos, requirements, usages, infos.len());
    let groups = choose|groups: Seq<Vec<u32>>|
        {
            &&& #[trigger] groups_of(groups, components, infos, usages)
            &&& (placements, buckets) == whole_plan(strategy, resources, groups, granularity)
        };
    lemma_plan_input(infos, requirements, usages, components, n, groups);
    lemma_alias_list(infos, requirements, usages, infos.len());
    law_every_grouped_resource_is_placed_well(strategy, resources, groups, granularity);
    assert forall|id: u32| #[trigger]
        placements.contains_key(id) <==> needs_place(infos, usages, id) by {
        if needs_place(infos, usages, id) {
            assert(grouped(groups, id));
            assert(lists(resources, id));
        }
        if placements.contains_key(id) {
            assert(lists(resources, id));
        }
    }
    assert forall|id: u32| #[trigger] placements.contains_key(id) implies placed_well(
        alias_resource(infos, requirements, usages, id),
        (placements, buckets),
        larger(granularity, 1),
    ) by {
        assert(needs_place(infos, usages, id));
        let r = alias_resource(infos, requirements, usages, id);
        assert(resources.contains(r));
        let i = choose|i: int| 0 <= i < resources.len() && resources[i] == r;
        assert(grouped(groups, resources[i].id));
    }
    assert forall|b: int| 0 <= b < buckets.len() implies allocatable(#[trigger] buckets[b]) by {
        law_every_bucket_is_usable(strategy, resources, groups, granularity, b);
    }
    assert forall|id: u32| #[trigger] placements.contains_key(id) implies placements[id].offset
        + placements[id].size <= u64::MAX by {
        let r = alias_resource(infos, requirements, usages, id);
        assert(placed_well(r, (placements, buckets), larger(granularity, 1)));
        assert(r.id == id);
    }
}

/// Resources that are live in the same pass hold no common byte, whatever the strategy.
pub proof fn law_live_resources_are_kept_apart(
    placements: Map<u32, Placement>,
    buckets: Seq<BucketReqs>,
    strategy: AliasStrategy,
    infos: Seq<GraphResourceInfo>,
    requirements: Requirements,
    usages: Usages,
    components: Seq<PassComponent>,
    n: int,
    granularity: u64,
)
    requires
        plans_frame(
            placements,
            buckets,
            strategy,
            infos,
            requirements,
            usages,
            components,
            n,
            granularity,
        ),
    ensures
        keeps_live_apart(placements, usages),
{
    let resources = alias_list(infos, requirements, usages, infos.len());
    let groups = choose|groups: Seq<Vec<u32>>|
        {
            &&& #[trigger] groups_of(groups, components, infos, usages)
            &&& (placements, buckets) == whole_plan(strategy, resources, groups, granularity)
        };
    law_every_used_resource_has_a_place(
        placements,
        buckets,
        strategy,
        infos,
        requirements,
        usages,
        components,
        n,
        granularity,
    );
    lemma_plan_input(infos, requirements, usages, components, n, groups);
    lemma_alias_list(infos, requirements, usages, infos.len());
    assert forall|x: u32, y: u32, b: int|
        #![trigger at_byte(placements[x], b), at_byte(placements[y], b)]
        x != y && is_placed(placements, usages, x) && is_placed(placements, usages, y)
            && placements[x].bucket == placements[y].bucket && usages[x].first_pass
            <= usages[y].last_pass && usages[y].first_pass <= usages[x].last_pass implies !(at_byte(
        placements[x],
        b,
    ) && at_byte(placements[y], b)) by {
        assert(placements.contains_key(x));
        assert(placements.contains_key(y));
        let rx = alias_resource(infos, requirements, usages, x);
        let ry = alias_resource(infos, requirements, usages, y);
        assert(resources.contains(rx));
        assert(resources.contains(ry));
        let i = choose|i: int| 0 <= i < resources.len() && resources[i] == rx;
        let j = choose|j: int| 0 <= j < resources.len() && resources[j] == ry;
        assert(live_together(resources[i], resources[j]));
        law_live_resources_share_no_byte(strategy, resources, groups, granularity, i, j);
    }
}

/// With aliasing off nothing waits for memory: no resource has predecessors, so no barrier
/// is there for the sake of memory.
pub proof fn law_off_waits_for_no_memory(
    placements: Map<u32, Placement>,
    buckets: Seq<BucketReqs>,
    infos: Seq<GraphResourceInfo>,
    requirements: Requirements,
    usages: Usages,
    components: Seq<PassComponent>,
    n: int,
    granularity: u64,
    r: u32,
)
    requires
        plans_frame(
            placements,
            buckets,
            AliasStrategy::Off,
            infos,
            requirements,
            usages,
            components,
            n,
            granularity,
        ),
    ensures
        !has_predecessors(placements, usages, r),
{
    let resources = alias_list(infos, requirements, usages, infos.len());
    let groups = choose|groups: Seq<Vec<u32>>|
        {
            &&& #[trigger] groups_of(groups, components, infos, usages)
            &&& (placements, buckets) == whole_plan(
                AliasStrategy::Off,
                resources,
                groups,
                granularity,
            )
        };
    if has_predecessors(placements, usages, r) {
        let o = kept_candidates(placements, usages, r)[0];
        assert(kept_candidates(placements, usages, r).contains(o));
        law_predecessors_are_earlier_occupants(placements, usages, r, o);
        law_every_used_resource_has_a_place(
            placements,
            buckets,
            AliasStrategy::Off,
            infos,
            requirements,
            usages,
            components,
            n,
            granularity,
        );
        lemma_plan_input(infos, requirements, usages, components, n, groups);
        lemma_alias_list(infos, requirements, usages, infos.len());
        assert(placements.contains_key(o) && placements.contains_key(r));
        let ro = alias_resource(infos, requirements, usages, o);
        let rr = alias_resource(infos, requirements, usages, r);
        assert(resources.contains(ro));
        assert(resources.contains(rr));
        let i = choose|i: int| 0 <= i < resources.len() && resources[i] == ro;
        let j = choose|j: int| 0 <= j < resources.len() && resources[j] == rr;
        law_off_shares_nothing(resources, groups, granularity, i, j);
    }
}

/// Every reuse of memory in a planned frame is ordered: a resource that stands on bytes
/// which another held before waits for that one, directly or through others.
pub proof fn law_planned_reuse_is_ordered(
    placements: Map<u32, Placement>,
    buckets: Seq<BucketReqs>,
    strategy: AliasStrategy,
    infos: Seq<GraphResourceInfo>,
    requirements: Requirements,
    usages: Usages,
    components: Seq<PassComponent>,
    n: int,
    granularity: u64,
    a: u32,
    b: u32,
    byte: int,
)
    requires
        plans_frame(
            placements,
            buckets,
            strategy,
            infos,
            requirements,
            usages,
            components,
            n,
            granularity,
        ),
        a != b,
        placements.contains_key(a),
        placements.contains_key(b),
        placements[a].bucket == placements[b].bucket,
        at_byte(placements[a], byte),
        at_byte(placements[b], byte),
    ensures
        waits_for(placements, usages, a, b) || waits_for(placements, usages, b, a),
{
    law_every_used_resource_has_a_place(
        placements,
        buckets,
        strategy,
        infos,
        requirements,
        usages,
        components,
        n,
        granularity,
    );
    law_live_resources_are_kept_apart(
        placements,
        buckets,
        strategy,
        infos,
        requirements,
        usages,
        components,
        n,
        granularity,
    );
    assert(is_placed(placements, usages, a));
    assert(is_placed(placements, usages, b));
    if usages[b].last_pass < usages[a].first_pass {
        law_every_reuse_is_ordered(placements, usages, a, b, byte);
    } else {
        assert(usages[a].last_pass < usages[b].first_pass) by {
            if usages[b].first_pass <= usages[a].last_pass {
                assert(!(at_byte(placements[a], byte) && at_byte(placements[b], byte)));
            }
        }
        law_every_reuse_is_ordered(placements, usages, b, a, byte);
    }
}

} // verus!
