//! What holds of every generated graph.
use vk_sync_fork::AccessType;
use vstd::prelude::*;

use crate::render_graph::access::opens_write_epoch;
use crate::render_graph::alias::{AliasResource, MemoryLocation};
use crate::render_graph::analysis::{
    touches, usage_matches, usages_match, usages_of, PassDecl, Touch,
};
use crate::render_graph::barriers::lemma_ascending_unique;
use crate::render_graph::bench_support::{
    declared, drawn_resources, gen_graph, generates, may_generate, power, read_choices, reads_it,
    resource_from, rolls_of, seeded_rng, with_lifetimes, write_choices, writes_it, GenParams,
    GraphFixture, ResourceRoll,
};
use crate::render_graph::components::{
    are_components, ascending_passes, component_has, connected, has_pass, is_path,
    lemma_connected_self, lists_passes, lists_resources, share_at, touched_by, PassComponent,
};
use crate::render_graph::dep_graph::edges;
use crate::render_graph::frame_laws::names;
use crate::render_graph::predecessors::Usages;
use crate::render_graph::resource::{GraphResourceDesc, GraphResourceInfo};

verus! {

/// What passes declare decides what they touch.
proof fn lemma_same_touches(a: Seq<PassDecl>, b: Seq<PassDecl>, n: nat)
    requires
        declared(a) == declared(b),
        n <= a.len(),
    ensures
        a.len() == b.len(),
        touches(a, n) == touches(b, n),
    decreases n,
{
    assert(declared(a).len() == a.len());
    assert(declared(b).len() == b.len());
    if n > 0 {
        lemma_same_touches(a, b, (n - 1) as nat);
        assert(declared(a)[n - 1] == (a[n - 1].0@, a[n - 1].1@));
        assert(declared(b)[n - 1] == (b[n - 1].0@, b[n - 1].1@));
    }
}

/// Whether two scans found the same resources, each with the same lifetime.
pub open spec fn same_lifetimes(a: Usages, b: Usages) -> bool {
    forall|id: u32|
        (#[trigger] a.contains_key(id) <==> b.contains_key(id)) && (a.contains_key(id)
            ==> a[id].first_pass == b[id].first_pass && a[id].last_pass == b[id].last_pass
            && a[id].usages@ == b[id].usages@)
}

proof fn lemma_same_lifetimes(a: Usages, b: Usages, t: Seq<Touch>)
    requires
        usages_match(a, t),
        usages_match(b, t),
    ensures
        same_lifetimes(a, b),
{
    assert forall|id: u32|
        (#[trigger] a.contains_key(id) <==> b.contains_key(id)) && (a.contains_key(id)
            ==> a[id].first_pass == b[id].first_pass && a[id].last_pass == b[id].last_pass
            && a[id].usages@ == b[id].usages@) by {
        assert(b.contains_key(id) <==> usages_of(t, id).len() > 0);
        if a.contains_key(id) {
            assert(usage_matches(a[id], t, id));
            assert(usage_matches(b[id], t, id));
        }
    }
}

proof fn lemma_same_resources(list: Seq<AliasResource>, a: Usages, b: Usages, n: nat)
    requires
        same_lifetimes(a, b),
        n <= list.len(),
    ensures
        with_lifetimes(list, a, n) == with_lifetimes(list, b, n),
    decreases n,
{
    if n > 0 {
        lemma_same_resources(list, a, b, (n - 1) as nat);
        assert(a.contains_key(list[n - 1].id) <==> b.contains_key(list[n - 1].id));
    }
}

/// Two ascending lists of the same passes are the same list.
proof fn lemma_passes_unique(a: Seq<usize>, b: Seq<usize>)
    requires
        ascending_passes(a),
        ascending_passes(b),
        forall|p: usize| #[trigger] a.contains(p) <==> b.contains(p),
    ensures
        a == b,
    decreases a.len(),
{
    if a.len() == 0 {
        if b.len() > 0 {
            assert(a.contains(b[0]));
        }
        assert(a =~= b);
    } else {
        assert(a.contains(a.last()));
        let j = choose|j: int| 0 <= j < b.len() && b[j] == a.last();
        assert(a.contains(b.last()));
        let i = choose|i: int| 0 <= i < a.len() && a[i] == b.last();
        assert(a[i] <= a[a.len() - 1] && b[j] <= b[b.len() - 1]);
        assert(a.last() == b.last());
        let x = a.drop_last();
        let y = b.drop_last();
        assert forall|p: usize| #[trigger] x.contains(p) <==> y.contains(p) by {
            if x.contains(p) {
                let k = choose|k: int| 0 <= k < x.len() && x[k] == p;
                assert(a[k] == p && a[k] < a[a.len() - 1]);
                assert(a.contains(p));
                let m = choose|m: int| 0 <= m < b.len() && b[m] == p;
                assert(y[m] == p);
            }
            if y.contains(p) {
                let k = choose|k: int| 0 <= k < y.len() && y[k] == p;
                assert(b[k] == p && b[k] < b[b.len() - 1]);
                assert(a.contains(p));
                let m = choose|m: int| 0 <= m < a.len() && a[m] == p;
                assert(x[m] == p);
            }
        }
        lemma_passes_unique(x, y);
        assert(a =~= x.push(a.last()));
        assert(b =~= y.push(b.last()));
    }
}

/// Lifetimes decide which passes are connected.
proof fn lemma_same_connected(a: Usages, b: Usages, x: int, y: int)
    requires
        same_lifetimes(a, b),
        connected(a, x, y),
    ensures
        connected(b, x, y),
{
    let path = choose|path: Seq<int>| #[trigger] is_path(a, path, x, y);
    assert forall|id: u32, p: int| #[trigger] touched_by(a, id, p) implies touched_by(
        b,
        id,
        p,
    ) by {
        let k = choose|k: int|
            0 <= k < a[id].usages@.len() && (#[trigger] a[id].usages@[k]).0 == p;
        assert(b[id].usages@[k].0 == p);
    }
    assert forall|k: int| 0 <= k < path.len() - 1 implies #[trigger] share_at(b, path, k) by {
        assert(share_at(a, path, k));
        let id = choose|id: u32| #[trigger]
            touched_by(a, id, path[k]) && touched_by(a, id, path[k + 1]);
        assert(touched_by(b, id, path[k]) && touched_by(b, id, path[k + 1]));
    }
    assert(is_path(b, path, x, y));
}

/// A pass that the first `c` components do not hold comes no earlier than the first pass
/// of the component behind them.
proof fn lemma_not_before(
    components: Seq<PassComponent>,
    n: int,
    usages: Usages,
    c: int,
    p: usize,
)
    requires
        are_components(components, n, usages),
        0 <= c,
        p < n,
        forall|d: int| 0 <= d < c && d < components.len() ==> !(#[trigger] components[d]).passes@.contains(p),
    ensures
        c < components.len(),
        components[c].passes@[0] <= p,
{
    assert(has_pass(components, p as int));
    let e = choose|e: int| #[trigger] component_has(components, e, p as int);
    assert(components[e].passes@.contains(p));
    assert(e >= c);
    assert(lists_passes(components[e], n));
    assert(lists_passes(components[c], n));
    let k = choose|k: int| 0 <= k < components[e].passes@.len() && components[e].passes@[k] == p;
    assert(components[e].passes@[0] <= components[e].passes@[k]);
    if c < e {
        assert(components[c].passes@[0] < components[e].passes@[0]);
    }
}

/// A component holds exactly what is connected with its first pass.
proof fn lemma_holds_the_connected(
    components: Seq<PassComponent>,
    n: int,
    usages: Usages,
    c: int,
    p: usize,
)
    requires
        are_components(components, n, usages),
        0 <= c < components.len(),
    ensures
        components[c].passes@.contains(p) <==> p < n && connected(
            usages,
            components[c].passes@[0] as int,
            p as int,
        ),
{
    assert(lists_passes(components[c], n));
    if components[c].passes@.contains(p) {
        let k = choose|k: int|
            0 <= k < components[c].passes@.len() && components[c].passes@[k] == p;
        assert(connected(
            usages,
            components[c].passes@[0] as int,
            components[c].passes@[k] as int,
        ));
    } else if p < n {
        assert(has_pass(components, p as int));
        let e = choose|e: int| #[trigger] component_has(components, e, p as int);
        let k = choose|k: int|
            0 <= k < components[e].passes@.len() && components[e].passes@[k] == p;
        assert(connected(
            usages,
            components[c].passes@[0] as int,
            components[e].passes@[k] as int,
        ) <==> c == e);
    }
}

/// Whether two lists hold the same components.
pub open spec fn same_components(a: Seq<PassComponent>, b: Seq<PassComponent>) -> bool {
    &&& a.len() == b.len()
    &&& forall|c: int|
        #![trigger a[c]]
        #![trigger b[c]]
        0 <= c < a.len() ==> a[c].passes@ == b[c].passes@ && a[c].resources@ == b[c].resources@
}

proof fn lemma_first_passes(
    a: Seq<PassComponent>,
    b: Seq<PassComponent>,
    n: int,
    ua: Usages,
    ub: Usages,
    c: int,
)
    requires
        are_components(a, n, ua),
        are_components(b, n, ub),
        0 <= c < a.len(),
        forall|d: int| 0 <= d < c ==> d < b.len() && (#[trigger] a[d]).passes@ == b[d].passes@,
    ensures
        c < b.len(),
        b[c].passes@[0] <= a[c].passes@[0],
{
    let p = a[c].passes@[0];
    assert(lists_passes(a[c], n));
    assert forall|d: int| 0 <= d < c && d < b.len() implies !(#[trigger] b[d]).passes@.contains(p) by {
        assert(a[d].passes@ == b[d].passes@);
        if a[d].passes@.contains(p) {
            let k = choose|k: int| 0 <= k < a[d].passes@.len() && a[d].passes@[k] == p;
            lemma_connected_self(ua, p as int);
            assert(connected(ua, a[c].passes@[0] as int, a[d].passes@[k] as int) <==> c == d);
        }
    }
    lemma_not_before(b, n, ub, c, p);
}

proof fn lemma_same_passes(
    a: Seq<PassComponent>,
    b: Seq<PassComponent>,
    n: int,
    ua: Usages,
    ub: Usages,
    c: int,
)
    requires
        are_components(a, n, ua),
        are_components(b, n, ub),
        same_lifetimes(ua, ub),
        0 <= c <= a.len(),
    ensures
        c <= b.len(),
        forall|d: int| 0 <= d < c ==> (#[trigger] a[d]).passes@ == b[d].passes@,
    decreases c,
{
    if c > 0 {
        lemma_same_passes(a, b, n, ua, ub, c - 1);
        lemma_first_passes(a, b, n, ua, ub, c - 1);
        assert forall|d: int| 0 <= d < c - 1 implies d < a.len() && (#[trigger] b[d]).passes@
            == a[d].passes@ by {
            assert(a[d].passes@ == b[d].passes@);
        }
        lemma_first_passes(b, a, n, ub, ua, c - 1);
        assert forall|p: usize| #[trigger]
            a[c - 1].passes@.contains(p) <==> b[c - 1].passes@.contains(p) by {
            lemma_holds_the_connected(a, n, ua, c - 1, p);
            lemma_holds_the_connected(b, n, ub, c - 1, p);
            let first = a[c - 1].passes@[0] as int;
            if connected(ua, first, p as int) {
                lemma_same_connected(ua, ub, first, p as int);
            }
            if connected(ub, first, p as int) {
                lemma_same_connected(ub, ua, first, p as int);
            }
        }
        assert(lists_passes(a[c - 1], n) && lists_passes(b[c - 1], n));
        lemma_passes_unique(a[c - 1].passes@, b[c - 1].passes@);
    }
}

/// Lifetimes decide the components.
proof fn lemma_same_components(
    a: Seq<PassComponent>,
    b: Seq<PassComponent>,
    n: int,
    ua: Usages,
    ub: Usages,
)
    requires
        are_components(a, n, ua),
        are_components(b, n, ub),
        same_lifetimes(ua, ub),
    ensures
        same_components(a, b),
{
    lemma_same_passes(a, b, n, ua, ub, a.len() as int);
    lemma_same_passes(b, a, n, ub, ua, b.len() as int);
    assert forall|c: int| 0 <= c < a.len() implies a[c].passes@ == b[c].passes@
        && (#[trigger] a[c]).resources@ == b[c].resources@ by {
        assert(lists_resources(a[c], ua) && lists_resources(b[c], ub));
        assert forall|id: u32| #[trigger]
            a[c].resources@.contains(id) <==> b[c].resources@.contains(id) by {
            assert(ua.contains_key(id) <==> ub.contains_key(id));
        }
        lemma_ascending_unique(a[c].resources@, b[c].resources@);
    }
}

/// Whether two fixtures hold the same graph, with all that is derived from it.
pub open spec fn same_graph(a: GraphFixture, b: GraphFixture) -> bool {
    &&& a.virtual_resources@ == b.virtual_resources@
    &&& declared(a.declarations@) == declared(b.declarations@)
    &&& same_lifetimes(a.analysis.resource_usages@, b.analysis.resource_usages@)
    &&& edges(a.analysis.dep_graph) == edges(b.analysis.dep_graph)
    &&& same_components(a.analysis.components@, b.analysis.components@)
    &&& a.schedule_pos@ == b.schedule_pos@
    &&& a.alias_resources@ == b.alias_resources@
    &&& a.alias_components@.len() == b.alias_components@.len()
    &&& forall|c: int|
        0 <= c < a.alias_components@.len() ==> (#[trigger] a.alias_components@[c])@
            == b.alias_components@[c]@
}

/// A graph is decided by its seed and its parameters: the same give the same graph, in
/// every run.
pub proof fn law_one_seed_gives_one_graph(
    seed: u64,
    params: GenParams,
    a: GraphFixture,
    b: GraphFixture,
)
    requires
        generates(seed, params, a),
        generates(seed, params, b),
    ensures
        same_graph(a, b),
{
    let rolls = rolls_of(seeded_rng(seed), params.resource_count() as nat).0;
    let resources = drawn_resources(rolls);
    let t = touches(a.declarations@, a.declarations@.len());
    let n = a.declarations@.len() as int;
    let ua = a.analysis.resource_usages@;
    let ub = b.analysis.resource_usages@;
    assert(a.virtual_resources@ =~= b.virtual_resources@) by {
        assert forall|i: int| 0 <= i < a.virtual_resources@.len() implies a.virtual_resources@[i]
            == b.virtual_resources@[i] by {
            assert(rolls[i].in_range());
        }
    }
    lemma_same_touches(a.declarations@, b.declarations@, a.declarations@.len());
    lemma_same_lifetimes(ua, ub, t);
    lemma_same_resources(resources, ua, ub, resources.len());
    lemma_same_components(a.analysis.components@, b.analysis.components@, n, ua, ub);
    assert forall|c: int| 0 <= c < a.alias_components@.len() implies (
    #[trigger] a.alias_components@[c])@ == b.alias_components@[c]@ by {
        assert(a.analysis.components@[c].resources@ == b.analysis.components@[c].resources@);
    }
}

// ---------------------------------------------------------------------------
// What is generated
// ---------------------------------------------------------------------------

/// A resource is generated as it was drawn, and alike for the graph and for the planner: a
/// buffer has the size and alignment that are planned for, both are to lie in the same kind
/// of memory, and some type of memory will do.
pub proof fn law_generated_resources_are_what_was_drawn(
    roll: ResourceRoll,
    id: u32,
    made: (GraphResourceInfo, AliasResource),
)
    requires
        roll.in_range(),
        call_ensures(resource_from, (&roll, id), made),
    ensures
        made.1.id == id,
        made.1.size == power(roll.size_log) + roll.jitter,
        made.1.alignment == power(roll.alignment_log),
        made.1.size > 0,
        made.1.alignment > 0,
        made.1.memory_type_bits > 0,
        match made.0 {
            GraphResourceInfo::Created(GraphResourceDesc::Image(desc)) => roll.kind_roll == 0
                && desc.location == made.1.location,
            GraphResourceInfo::Created(GraphResourceDesc::Buffer(desc)) => {
                &&& roll.kind_roll == 1
                &&& desc.byte_size == made.1.size
                &&& desc.alignment == made.1.alignment
                &&& desc.memory_location == made.1.location
            },
            _ => false,
        },
        made.1.location == MemoryLocation::CpuToGpu <==> roll.location_roll == 0,
{
    vstd::arithmetic::power2::lemma_pow2_pos(roll.size_log as nat);
    vstd::arithmetic::power2::lemma_pow2_pos(roll.alignment_log as nat);
    vstd::arithmetic::power2::lemma_pow2_strictly_increases(roll.size_log as nat, 25);
    vstd::arithmetic::power2::lemma_pow2_strictly_increases(roll.alignment_log as nat, 25);
    vstd::arithmetic::power2::lemma2_to64();
}

proof fn lemma_producer_writes(params: GenParams, fixture: GraphFixture, id: int) -> (k: int)
    requires
        may_generate(params, fixture),
        0 <= id < params.resource_count(),
        id <= u32::MAX,
        0 <= params.producer(id) < params.pass_count(),
    ensures
        0 <= k < fixture.declarations@[params.producer(id)].1@.len(),
        fixture.declarations@[params.producer(id)].1@[k].id == id,
{
    let q = params.producer(id);
    let pass = fixture.declarations@[q];
    assert(params.may_declare(pass, q));
    let (available, made) = choose|available: int, made: int|
        {
            &&& #[trigger] params.made_before(q, available)
            &&& #[trigger] params.made_before(q + 1, made)
            &&& available <= made
            &&& params.may_read(pass.0@, q, available)
            &&& params.may_write(pass.1@, q, available, made)
        };
    assert(!(id < available));
    assert(id < made);
    let again = pass.1@.len() - (made - available);
    let i = id - available;
    assert(writes_it(pass.1@[again + i], available + i));
    again + i
}

/// Generated passes only read what an earlier pass made, and not too long ago; what they
/// declare as read only reads, and no pass declares more reads than it may, nor one of them
/// twice.
pub proof fn law_generated_passes_read_what_was_made(
    seed: u64,
    params: GenParams,
    fixture: GraphFixture,
    p: int,
    i: int,
    j: int,
) -> (q: int)
    requires
        params.fits(),
        call_ensures(gen_graph, (seed, &params), fixture),
        0 <= p < fixture.declarations@.len(),
        0 <= i < j < fixture.declarations@[p].0@.len(),
    ensures
        0 <= q < p,
        p - q <= params.max_lifetime,
        names(fixture.declarations@[q].1@, fixture.declarations@[p].0@[i].id),
        fixture.declarations@[p].0@[i].id < fixture.virtual_resources@.len(),
        !opens_write_epoch(fixture.declarations@[p].0@[i].access.access_type),
        fixture.declarations@[p].0@.len() <= params.reads_per_pass,
        fixture.declarations@[p].0@[i].id != fixture.declarations@[p].0@[j].id,
{
    let pass = fixture.declarations@[p];
    assert(params.may_declare(pass, p));
    let (available, made) = choose|available: int, made: int|
        {
            &&& #[trigger] params.made_before(p, available)
            &&& #[trigger] params.made_before(p + 1, made)
            &&& available <= made
            &&& params.may_read(pass.0@, p, available)
            &&& params.may_write(pass.1@, p, available, made)
        };
    let r = pass.0@[i];
    let id = r.id as int;
    assert(params.recent(p, available, id));
    assert(reads_it(r, id));
    let q = params.producer(id);
    assert(q < p);
    assert(0 <= q) by {
        let a = id * params.pass_count();
        let n = params.resource_count();
        assert(0 <= id * params.pass_count()) by (nonlinear_arith)
            requires
                0 <= id,
                0 < params.pass_count(),
        ;
        assert(0 <= a / n) by (nonlinear_arith)
            requires
                0 <= a,
                0 < n,
        ;
    }
    let k = lemma_producer_writes(params, fixture, id);
    assert(fixture.declarations@[q].1@[k].id == r.id);
    lemma_choices();
    q
}

proof fn lemma_choices()
    ensures
        forall|access: AccessType| #[trigger]
            read_choices().contains(access) ==> !opens_write_epoch(access),
        forall|access: AccessType| #[trigger]
            write_choices().contains(access) ==> opens_write_epoch(access),
{
    assert forall|access: AccessType| #[trigger]
        read_choices().contains(access) implies !opens_write_epoch(access) by {
        let i = choose|i: int| 0 <= i < read_choices().len() && read_choices()[i] == access;
        assert(i == 0 || i == 1 || i == 2 || i == 3 || i == 4);
    }
    assert forall|access: AccessType| #[trigger]
        write_choices().contains(access) implies opens_write_epoch(access) by {
        let i = choose|i: int| 0 <= i < write_choices().len() && write_choices()[i] == access;
        assert(i == 0 || i == 1 || i == 2 || i == 3);
    }
}

/// Every generated resource is made by one pass, and resources are spread evenly: with each
/// resource the pass goes on by as many passes as there are for one resource. What a pass
/// declares as written is written.
pub proof fn law_generated_resources_are_spread_evenly(
    seed: u64,
    params: GenParams,
    fixture: GraphFixture,
    r: u32,
    p: int,
    w: int,
) -> (q: int)
    requires
        params.fits(),
        call_ensures(gen_graph, (seed, &params), fixture),
        r < fixture.virtual_resources@.len(),
        0 <= p < fixture.declarations@.len(),
        0 <= w < fixture.declarations@[p].1@.len(),
    ensures
        0 <= q < fixture.declarations@.len(),
        names(fixture.declarations@[q].1@, r),
        q * fixture.virtual_resources@.len() <= r * fixture.declarations@.len(),
        r * fixture.declarations@.len() < (q + 1) * fixture.virtual_resources@.len(),
        opens_write_epoch(fixture.declarations@[p].1@[w].access.access_type),
        fixture.declarations@[p].1@[w].id == r ==> q <= p,
{
    let n = params.resource_count();
    let count = params.pass_count();
    let id = r as int;
    let q = params.producer(id);
    let total = id * count;
    assert(0 <= q < count && q * n <= total && total < (q + 1) * n) by {
        assert(0 <= total && total < n * count) by (nonlinear_arith)
            requires
                0 <= id < n,
                0 < count,
                total == id * count,
        ;
        assert(0 <= total / n < count && (total / n) * n <= total && total < (total / n + 1) * n)
            by (nonlinear_arith)
            requires
                0 <= total < n * count,
                0 < n,
        ;
    }
    let k = lemma_producer_writes(params, fixture, id);
    assert(fixture.declarations@[q].1@[k].id == r);
    let pass = fixture.declarations@[p];
    assert(params.may_declare(pass, p));
    let (available, made) = choose|available: int, made: int|
        {
            &&& #[trigger] params.made_before(p, available)
            &&& #[trigger] params.made_before(p + 1, made)
            &&& available <= made
            &&& params.may_read(pass.0@, p, available)
            &&& params.may_write(pass.1@, p, available, made)
        };
    let again = pass.1@.len() - (made - available);
    lemma_choices();
    if w < again {
        assert(params.recent(p, available, pass.1@[0].id as int));
    } else {
        let i = w - again;
        assert(writes_it(pass.1@[again + i], available + i));
    }
    q
}

} // verus!
