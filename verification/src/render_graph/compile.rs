//! Compiling a frame: from declared passes to an order, the barriers in it, and the
//! memory behind it.

use std::collections::HashMap;

use vk_sync_fork::AccessType;
use vstd::prelude::*;

use crate::error::SrResult;
use crate::render_graph::alias::{AliasStrategy, BucketReqs, Placement};
use crate::render_graph::alias_laws::allocatable;
use crate::render_graph::analysis::{
    analyzable, analyze_passes, lemma_hazards_below, lemma_touches_below,
    lemma_usage_in_range, passes_below, producers_match, producers_of, touches, usage_matches,
    usages_match, usages_of, PassAnalysis, PassDecl, Touch,
};
use crate::render_graph::analysis_laws::{
    in_pass_order, law_edges_are_few, law_schedule_is_declaration_order, lemma_touches_in_order,
};
use crate::render_graph::barriers::{
    barrier_views, barriers_match, barriers_match_at, ends_as, epochs_of_all, passes_scheduled,
    plan_barriers, transitions_before, ResourceBarrier, ResourceEndState, Transition,
};
use crate::render_graph::dep_graph::{edges, node_weights};
use crate::render_graph::graph::{AnyRenderPass, RenderGraph, TemporalResource};
use crate::render_graph::internal_passes::{
    all_carried, carried, carried_in, copy_refs, kept, needed_passes,
};
use crate::render_graph::memory_plan::{
    check_buckets, first_unsuitable, is_memory_plan, law_every_used_resource_has_a_place, measured,
    plan_memory, plans_frame, MemoryRequirements,
};
use crate::render_graph::predecessors::Usages;
use crate::render_graph::resource::{set_import_access, GraphResourceInfo, ImportState};
use crate::render_graph::schedule::kahn_toposort;

verus! {

broadcast use {vstd::std_specs::hash::group_hash_axioms, vstd::std_specs::btree::group_btree_axioms};

// ---------------------------------------------------------------------------
// Analysis of declared passes
// ---------------------------------------------------------------------------

/// What passes declare: their reads and their writes.
pub open spec fn declared(passes: Seq<AnyRenderPass>) -> Seq<PassDecl> {
    Seq::new(passes.len(), |i: int| (passes[i].data().read, passes[i].data().write))
}

/// How many accesses the first `n` passes declare.
pub open spec fn access_count(passes: Seq<AnyRenderPass>, n: nat) -> nat
    decreases n,
{
    if n == 0 {
        0
    } else {
        access_count(passes, (n - 1) as nat) + passes[n - 1].data().read@.len() + passes[n
            - 1].data().write@.len()
    }
}

/// How many accesses the first `n` resources carry in.
pub open spec fn carried_count(infos: Seq<GraphResourceInfo>, n: nat) -> nat
    decreases n,
{
    if n == 0 {
        0
    } else {
        carried_count(infos, (n - 1) as nat) + carried_in(infos[n - 1]).len()
    }
}

/// A pass list whose graph can be numbered with 32-bit indices.
pub open spec fn countable(passes: Seq<AnyRenderPass>) -> bool {
    passes.len() < u32::MAX && 2 * access_count(passes, passes.len()) <= u32::MAX
}

/// Touches depend on what is declared alone.
proof fn lemma_same_touches(a: Seq<PassDecl>, b: Seq<PassDecl>, n: nat)
    requires
        n <= a.len(),
        n <= b.len(),
        forall|i: int|
            0 <= i < n ==> (#[trigger] a[i]).0@ == b[i].0@ && a[i].1@ == b[i].1@,
    ensures
        touches(a, n) == touches(b, n),
    decreases n,
{
    if n > 0 {
        lemma_same_touches(a, b, (n - 1) as nat);
        assert(a[n - 1].0@ == b[n - 1].0@);
    }
}

proof fn lemma_touch_count(passes: Seq<AnyRenderPass>, n: nat)
    requires
        n <= passes.len(),
    ensures
        touches(declared(passes), n).len() == access_count(passes, n),
    decreases n,
{
    if n > 0 {
        lemma_touch_count(passes, (n - 1) as nat);
    }
}

proof fn lemma_countable(passes: Seq<AnyRenderPass>)
    requires
        countable(passes),
    ensures
        analyzable(declared(passes)),
{
    lemma_touch_count(passes, passes.len());
    law_edges_are_few(touches(declared(passes), passes.len()));
}

/// What passes declare, as lists of their own.
pub(crate) fn declarations(passes: &Vec<AnyRenderPass>) -> (decls: Vec<PassDecl>)
    ensures
        decls.len() == passes.len(),
        forall|i: int|
            0 <= i < decls.len() ==> (#[trigger] decls[i]).0@ == passes[i].data().read@
                && decls[i].1@ == passes[i].data().write@,
{
    let mut decls: Vec<PassDecl> = Vec::with_capacity(passes.len());
    let mut i: usize = 0;
    while i < passes.len()
        invariant
            i <= passes.len(),
            decls.len() == i,
            forall|k: int|
                0 <= k < i ==> (#[trigger] decls[k]).0@ == passes[k].data().read@ && decls[k].1@
                    == passes[k].data().write@,
        decreases passes.len() - i,
    {
        let common = passes[i].common();
        decls.push((copy_refs(&common.read), copy_refs(&common.write)));
        i = i + 1;
    }
    decls
}

/// Lifetimes, hazards and components of a pass list.
pub fn analyze(passes: &Vec<AnyRenderPass>) -> (analysis: PassAnalysis)
    requires
        countable(passes@),
    ensures
        analysis.derives_from(declared(passes@)),
{
    let decls = declarations(passes);
    proof {
        lemma_countable(passes@);
        lemma_same_touches(decls@, declared(passes@), passes@.len());
    }
    analyze_passes(&decls)
}

// ---------------------------------------------------------------------------
// How much there is to analyze
// ---------------------------------------------------------------------------

proof fn lemma_count_prefix(a: Seq<AnyRenderPass>, b: Seq<AnyRenderPass>, n: nat)
    requires
        n <= a.len(),
        n <= b.len(),
        forall|i: int| 0 <= i < n ==> a[i] == b[i],
    ensures
        access_count(a, n) == access_count(b, n),
    decreases n,
{
    if n > 0 {
        lemma_count_prefix(a, b, (n - 1) as nat);
    }
}

proof fn lemma_kept_count(passes: Seq<AnyRenderPass>, keep: spec_fn(int) -> bool, n: nat)
    requires
        n <= passes.len(),
    ensures
        kept(passes, keep, n).len() <= n,
        access_count(kept(passes, keep, n), kept(passes, keep, n).len()) <= access_count(passes, n),
    decreases n,
{
    if n > 0 {
        let rest = kept(passes, keep, (n - 1) as nat);
        lemma_kept_count(passes, keep, (n - 1) as nat);
        lemma_count_prefix(rest, rest.push(passes[n - 1]), rest.len());
    }
}

proof fn lemma_needed_count(
    passes: Seq<AnyRenderPass>,
    marked: Set<u32>,
    temporal: Set<u32>,
    raw_producers: Seq<Vec<usize>>,
    internal_count: int,
)
    requires
        countable(passes),
    ensures
        ({
            let needed = needed_passes(passes, marked, temporal, raw_producers, internal_count);
            countable(needed) && needed.len() <= passes.len()
        }),
{
    let results = crate::render_graph::internal_passes::results_of(passes, marked);
    let roots = crate::render_graph::liveness::roots_of(
        crate::render_graph::internal_passes::write_lists(passes),
        results,
        temporal,
        internal_count,
    );
    lemma_kept_count(
        passes,
        |p: int| crate::render_graph::liveness::is_live(raw_producers, roots, p),
        passes.len(),
    );
}

proof fn lemma_carried_len(id: u32, accesses: Seq<AccessType>, n: nat)
    requires
        n <= accesses.len(),
    ensures
        carried(id, accesses, n, false).len() + carried(id, accesses, n, true).len() == n,
    decreases n,
{
    if n > 0 {
        lemma_carried_len(id, accesses, (n - 1) as nat);
    }
}

proof fn lemma_all_carried_len(infos: Seq<GraphResourceInfo>, n: nat)
    requires
        n <= infos.len(),
    ensures
        all_carried(infos, n, false).len() + all_carried(infos, n, true).len() == carried_count(
            infos,
            n,
        ),
    decreases n,
{
    if n > 0 {
        lemma_all_carried_len(infos, (n - 1) as nat);
        let accesses = carried_in(infos[n - 1]);
        lemma_carried_len((n - 1) as u32, accesses, accesses.len());
    }
}

proof fn lemma_count_behind(front: Seq<AnyRenderPass>, all: Seq<AnyRenderPass>, k: nat, n: nat)
    requires
        k + n <= all.len(),
        n <= front.len(),
        forall|i: int| 0 <= i < n ==> front[i] == all[k + i],
    ensures
        access_count(all, k + n) == access_count(all, k) + access_count(front, n),
    decreases n,
{
    if n > 0 {
        lemma_count_behind(front, all, k, (n - 1) as nat);
        assert(all[k + n - 1] == front[n - 1]);
        assert((k + n - 1) as nat == k + (n - 1) as nat);
    }
}

impl RenderGraph {
    /// A frame whose graph can be numbered with 32-bit indices: passes and resources,
    /// and two edges per access, whether declared, carried in or of a staging copy.
    pub open spec fn frame_fits(self) -> bool {
        let accesses = access_count(self.passes@, self.passes@.len()) + carried_count(
            self.virtual_resources@,
            self.virtual_resources@.len(),
        ) + self.prologue_copies@.len();
        &&& self.virtual_resources.len() <= u32::MAX
        &&& self.next_pass_id + 2 <= u32::MAX
        &&& self.passes.len() + 2 < u32::MAX
        &&& 2 * accesses <= u32::MAX
    }

    proof fn lemma_with_internal_fits(self, passes: Seq<AnyRenderPass>)
        requires
            self.frame_fits(),
            self.with_internal(passes),
        ensures
            countable(passes),
    {
        let n = self.internal_count();
        let infos = self.virtual_resources@;
        lemma_all_carried_len(infos, infos.len());
        assert forall|i: int| 0 <= i < self.passes@.len() implies self.passes@[i] == passes[n + i] by {
            assert(passes.skip(n)[i] == passes[n + i]);
        }
        lemma_count_behind(self.passes@, passes, n as nat, self.passes@.len());
        assert(access_count(passes, 0) == 0);
        if n >= 1 {
            assert(access_count(passes, 1) == passes[0].data().read@.len()
                + passes[0].data().write@.len());
        }
        if n == 2 {
            assert(access_count(passes, 2) == access_count(passes, 1) + passes[1].data().read@.len()
                + passes[1].data().write@.len());
        }
    }
}

// ---------------------------------------------------------------------------
// Which passes run
// ---------------------------------------------------------------------------

proof fn lemma_producers_below(t: Seq<Touch>, p: int, n: int)
    requires
        passes_below(t, n),
    ensures
        forall|k: int| 0 <= k < producers_of(t, p).len() ==> #[trigger] producers_of(t, p)[k] < n,
    decreases t.len(),
{
    if t.len() > 0 {
        let rest = t.drop_last();
        assert forall|i: int| 0 <= i < rest.len() implies (#[trigger] rest[i]).pass < n by {
            assert(t[i].pass < n);
        }
        lemma_producers_below(rest, p, n);
        lemma_hazards_below(rest, t.last().id, n);
        let few = producers_of(rest, p);
        let all = producers_of(t, p);
        assert forall|k: int| 0 <= k < all.len() implies #[trigger] all[k] < n by {
            if k < few.len() {
                assert(few[k] < n);
            }
        }
    }
}

/// `passes` are what is left of a graph's passes and its own once those that nothing
/// needs are dropped.
pub open spec fn survivors(graph: RenderGraph, passes: Seq<AnyRenderPass>) -> bool {
    exists|all: Seq<AnyRenderPass>, producers: Seq<Vec<usize>>|
        {
            &&& #[trigger] graph.with_internal(all)
            &&& #[trigger] producers_match(
                producers,
                touches(declared(all), all.len()),
                all.len() as int,
            )
            &&& passes == needed_passes(
                all,
                graph.output_resources@,
                graph.temporal_ids(),
                producers,
                graph.internal_count(),
            )
        }
}

impl RenderGraph {
    /// Adds the graph's own passes, drops those that nothing needs, and analyzes what
    /// is left.
    pub fn prepare(&mut self) -> (r: SrResult<PassAnalysis>)
        requires
            old(self).frame_fits(),
        ensures
            *final(self) == (RenderGraph {
                next_pass_id: (old(self).next_pass_id + old(self).internal_count()) as u32,
                passes: final(self).passes,
                prologue_copies: final(self).prologue_copies,
                output_resources: final(self).output_resources,
                ..*old(self)
            }),
            final(self).prologue_copies@.len() == 0,
            final(self).output_resources@ == old(self).output_resources@,
            match r {
                Ok(analysis) => {
                    &&& old(self).all_copies_land()
                    &&& survivors(*old(self), final(self).passes@)
                    &&& countable(final(self).passes@)
                    &&& analysis.derives_from(declared(final(self).passes@))
                },
                Err(e) => final(self).passes == old(self).passes && old(self).names_first_miss(e),
            },
    {
        let internal_count: usize = self.build_internal_passes()?;
        let ghost all = self.passes@;
        proof {
            old(self).lemma_with_internal_fits(all);
        }
        let analysis = analyze(&self.passes);
        let ghost t = touches(declared(all), all.len());
        proof {
            lemma_touches_below(declared(all), all.len());
            assert forall|q: int, k: int|
                0 <= q < all.len() && 0 <= k < analysis.raw_producers[q]@.len() implies (
            #[trigger] analysis.raw_producers[q]@[k]) < all.len() by {
                lemma_producers_below(t, q, all.len() as int);
                assert(analysis.raw_producers@[q]@ == producers_of(t, q));
            }
            lemma_needed_count(
                all,
                self.output_resources@,
                self.temporal_ids(),
                analysis.raw_producers@,
                internal_count as int,
            );
        }
        self.cull_dead_passes(&analysis.raw_producers, internal_count);
        proof {
            assert(survivors(*old(self), self.passes@)) by {
                assert(old(self).with_internal(all));
                assert(producers_match(analysis.raw_producers@, t, all.len() as int));
            }
        }
        if self.passes.len() != analysis.raw_producers.len() {
            Ok(analyze(&self.passes))
        } else {
            proof {
                lemma_needed_all(
                    all,
                    old(self).output_resources@,
                    old(self).temporal_ids(),
                    analysis.raw_producers@,
                    internal_count as int,
                );
            }
            Ok(analysis)
        }
    }
}

proof fn lemma_kept_all<T>(list: Seq<T>, keep: spec_fn(int) -> bool, n: nat)
    requires
        n <= list.len(),
    ensures
        kept(list, keep, n).len() <= n,
        kept(list, keep, n).len() == n ==> kept(list, keep, n) == list.take(n as int),
    decreases n,
{
    if n > 0 {
        lemma_kept_all(list, keep, (n - 1) as nat);
        assert(list.take(n as int) =~= list.take(n - 1).push(list[n - 1]));
    } else {
        assert(list.take(0) =~= Seq::empty());
    }
}

/// Where as many passes are left as there were, all are.
proof fn lemma_needed_all(
    passes: Seq<AnyRenderPass>,
    marked: Set<u32>,
    temporal: Set<u32>,
    raw_producers: Seq<Vec<usize>>,
    internal_count: int,
)
    requires
        needed_passes(passes, marked, temporal, raw_producers, internal_count).len()
            == passes.len(),
    ensures
        needed_passes(passes, marked, temporal, raw_producers, internal_count) == passes,
{
    let results = crate::render_graph::internal_passes::results_of(passes, marked);
    let roots = crate::render_graph::liveness::roots_of(
        crate::render_graph::internal_passes::write_lists(passes),
        results,
        temporal,
        internal_count,
    );
    lemma_kept_all(
        passes,
        |p: int| crate::render_graph::liveness::is_live(raw_producers, roots, p),
        passes.len(),
    );
    assert(passes.take(passes.len() as int) =~= passes);
}

// ---------------------------------------------------------------------------
// The order of the passes, and what stands before each
// ---------------------------------------------------------------------------

/// For every pass its place in the order.
pub fn schedule_positions(order: &Vec<usize>) -> (positions: Vec<usize>)
    requires
        order@.no_duplicates(),
        forall|k: int| 0 <= k < order.len() ==> #[trigger] order[k] < order.len(),
    ensures
        positions.len() == order.len(),
        forall|k: int| 0 <= k < order.len() ==> positions[#[trigger] order[k] as int] == k,
{
    let mut positions: Vec<usize> = Vec::with_capacity(order.len());
    let mut i: usize = 0;
    while i < order.len()
        invariant
            i <= order.len(),
            positions.len() == i,
        decreases order.len() - i,
    {
        positions.push(0);
        i = i + 1;
    }
    let mut k: usize = 0;
    while k < order.len()
        invariant
            k <= order.len(),
            positions.len() == order.len(),
            order@.no_duplicates(),
            forall|j: int| 0 <= j < order.len() ==> #[trigger] order[j] < order.len(),
            forall|j: int| 0 <= j < k ==> positions[#[trigger] order[j] as int] == j,
        decreases order.len() - k,
    {
        let pass: usize = order[k];
        positions.set(pass, k);
        k = k + 1;
    }
    positions
}

/// The barriers as they are recorded: in the order of the passes, those that need any.
pub open spec fn recorded(before: spec_fn(int) -> Seq<Transition>, order: Seq<usize>, n: nat) -> Seq<
    (usize, Seq<Transition>),
>
    decreases n,
{
    if n == 0 {
        Seq::empty()
    } else {
        let rest = recorded(before, order, (n - 1) as nat);
        let p = order[n - 1];
        if before(p as int).len() > 0 {
            rest.push((p, before(p as int)))
        } else {
            rest
        }
    }
}

/// The views of recorded barriers.
pub open spec fn recorded_views(list: Seq<(usize, Vec<ResourceBarrier>)>) -> Seq<
    (usize, Seq<Transition>),
> {
    Seq::new(list.len(), |i: int| (list[i].0, barrier_views(list[i].1@)))
}

/// Takes the barriers out in the order of the passes.
pub(crate) fn in_order(
    barriers: HashMap<usize, Vec<ResourceBarrier>>,
    order: &Vec<usize>,
    Ghost(before): Ghost<spec_fn(int) -> Seq<Transition>>,
) -> (list: Vec<(usize, Vec<ResourceBarrier>)>)
    requires
        barriers_match(barriers@, before),
        order@.no_duplicates(),
    ensures
        recorded_views(list@) == recorded(before, order@, order@.len()),
{
    let ghost all = barriers@;
    let mut barriers = barriers;
    let mut list: Vec<(usize, Vec<ResourceBarrier>)> = Vec::new();
    let mut k: usize = 0;
    proof {
        assert(recorded_views(list@) =~= recorded(before, order@, 0));
    }
    while k < order.len()
        invariant
            k <= order.len(),
            barriers_match(all, before),
            order@.no_duplicates(),
            forall|j: int|
                k <= j < order.len() ==> (barriers@.contains_key(#[trigger] order[j])
                    <==> all.contains_key(order[j])) && (all.contains_key(order[j]) ==> barriers@[order[j]]
                    == all[order[j]]),
            recorded_views(list@) == recorded(before, order@, k as nat),
        decreases order.len() - k,
    {
        let pass: usize = order[k];
        let ghost old_list = list@;
        proof {
            assert(barriers_match_at(all, before, pass));
        }
        match barriers.remove(&pass) {
            Some(found) => {
                list.push((pass, found));
                proof {
                    assert(recorded_views(list@) =~= recorded_views(old_list).push(
                        (pass, before(pass as int)),
                    ));
                }
            },
            None => {},
        }
        k = k + 1;
    }
    list
}

// ---------------------------------------------------------------------------
// What temporal resources are left in
// ---------------------------------------------------------------------------

/// The temporal backings, copy by copy.
pub open spec fn temporal_views(temporals: Seq<TemporalResource>) -> Seq<Seq<ImportState>> {
    Seq::new(
        temporals.len(),
        |t: int| crate::render_graph::graph::import_views(temporals[t].imports@),
    )
}

/// The backings once the first `n` registrations have carried their end states back.
pub open spec fn written_back(
    views: Seq<Seq<ImportState>>,
    registered: Seq<(usize, usize, u32)>,
    ends: Map<u32, ResourceEndState>,
    n: nat,
) -> Seq<Seq<ImportState>>
    decreases n,
{
    if n == 0 {
        views
    } else {
        let rest = written_back(views, registered, ends, (n - 1) as nat);
        let (t, c, id) = registered[n - 1];
        if ends.contains_key(id) {
            rest.update(
                t as int,
                rest[t as int].update(
                    c as int,
                    rest[t as int][c as int].left_in(ends[id].end_accesses@),
                ),
            )
        } else {
            rest
        }
    }
}

/// Every registration is of a copy that is there.
pub open spec fn registrations_held(
    temporals: Seq<TemporalResource>,
    registered: Seq<(usize, usize, u32)>,
) -> bool {
    forall|i: int|
        0 <= i < registered.len() ==> (#[trigger] registered[i]).0 < temporals.len()
            && registered[i].1 < temporals[registered[i].0 as int].imports@.len()
}

/// Frames of creation stay as they are, and so does the number of copies.
pub open spec fn same_shape(a: Seq<TemporalResource>, b: Seq<TemporalResource>) -> bool {
    &&& a.len() == b.len()
    &&& forall|t: int|
        0 <= t < a.len() ==> (#[trigger] a[t]).frame_of_creation == b[t].frame_of_creation
            && a[t].imports@.len() == b[t].imports@.len()
}

/// Carries the end states of the temporal copies back into their imports, so that the
/// next frame is ordered against this one.
fn write_back(
    temporals: &mut Vec<TemporalResource>,
    registered: &Vec<(usize, usize, u32)>,
    ends: &HashMap<u32, ResourceEndState>,
)
    requires
        registrations_held(old(temporals)@, registered@),
    ensures
        same_shape(final(temporals)@, old(temporals)@),
        temporal_views(final(temporals)@) == written_back(
            temporal_views(old(temporals)@),
            registered@,
            ends@,
            registered@.len(),
        ),
{
    let mut i: usize = 0;
    while i < registered.len()
        invariant
            i <= registered.len(),
            registrations_held(old(temporals)@, registered@),
            same_shape(temporals@, old(temporals)@),
            temporal_views(temporals@) == written_back(
                temporal_views(old(temporals)@),
                registered@,
                ends@,
                i as nat,
            ),
        decreases registered.len() - i,
    {
        let (t, c, id) = registered[i];
        let ghost before = temporals@;
        proof {
            assert(registered@[i as int].0 < temporals@.len());
            assert(before[t as int].imports@.len() == old(temporals)@[t as int].imports@.len());
        }
        match ends.get(&id) {
            Some(end) => {
                set_import_access(&mut temporals[t].imports[c], &end.end_accesses);
                proof {
                    let views = temporal_views(before);
                    assert(temporal_views(temporals@) =~= views.update(
                        t as int,
                        views[t as int].update(
                            c as int,
                            views[t as int][c as int].left_in(end.end_accesses@),
                        ),
                    )) by {
                        assert(temporal_views(temporals@)[t as int] =~= views[t as int].update(
                            c as int,
                            views[t as int][c as int].left_in(end.end_accesses@),
                        ));
                    }
                }
            },
            None => {},
        }
        i = i + 1;
    }
}

// ---------------------------------------------------------------------------
// The compiled frame
// ---------------------------------------------------------------------------

/// What is to be recorded for a frame, and in which memory.
pub struct FramePlan {
    /// The passes in the order they run.
    pub order: Vec<usize>,
    /// Per pass that needs any, the barriers issued right before it, in the order the
    /// passes run.
    pub barriers: Vec<(usize, Vec<ResourceBarrier>)>,
    pub placements: HashMap<u32, Placement>,
    pub buckets: Vec<BucketReqs>,
    pub analysis: PassAnalysis,
}

/// What stands before a pass in a frame whose passes run in the order of their
/// declaration.
pub open spec fn frame_barriers(
    infos: Seq<GraphResourceInfo>,
    usages: Usages,
    positions: Seq<usize>,
    placements: Map<u32, Placement>,
) -> spec_fn(int) -> Seq<Transition> {
    |p: int|
        transitions_before(
            infos,
            epochs_of_all(infos, usages, positions),
            placements,
            usages,
            p,
            infos.len(),
        )
}

/// The numbers below `n`, in order.
pub open spec fn counting(n: nat) -> Seq<usize> {
    Seq::new(n, |i: int| i as usize)
}

/// `ends` says how a compile leaves every resource.
pub open spec fn are_end_states(
    ends: Map<u32, ResourceEndState>,
    infos: Seq<GraphResourceInfo>,
    usages: Usages,
    positions: Seq<usize>,
) -> bool {
    &&& forall|id: u32| #[trigger] ends.contains_key(id) <==> id < infos.len()
    &&& forall|id: u32| #[trigger]
        ends.contains_key(id) ==> ends_as(
            ends[id],
            infos[id as int],
            epochs_of_all(infos, usages, positions)[id as int],
        )
}

proof fn lemma_usages_in_order(t: Seq<Touch>, id: u32)
    requires
        in_pass_order(t),
    ensures
        forall|i: int, j: int|
            #![trigger usages_of(t, id)[i], usages_of(t, id)[j]]
            0 <= i <= j < usages_of(t, id).len() ==> usages_of(t, id)[i].0 <= usages_of(t, id)[j].0,
        t.len() > 0 ==> forall|i: int|
            0 <= i < usages_of(t, id).len() ==> (#[trigger] usages_of(t, id)[i]).0 <= t.last().pass,
    decreases t.len(),
{
    if t.len() > 0 {
        let rest = t.drop_last();
        assert forall|i: int, j: int| #![trigger rest[i], rest[j]]
            0 <= i <= j < rest.len() implies rest[i].pass <= rest[j].pass by {
            assert(t[i].pass <= t[j].pass);
        }
        lemma_usages_in_order(rest, id);
        let few = usages_of(rest, id);
        let all = usages_of(t, id);
        if rest.len() > 0 {
            assert(t[t.len() - 2].pass <= t[t.len() - 1].pass);
            assert(rest.last() == t[t.len() - 2]);
        }
        assert forall|i: int| 0 <= i < all.len() implies (#[trigger] all[i]).0 <= t.last().pass by {
            if i < few.len() {
                assert(all[i] == few[i]);
                assert(few[i].0 <= rest.last().pass);
            }
        }
        assert forall|i: int, j: int| #![trigger all[i], all[j]]
            0 <= i <= j < all.len() implies all[i].0 <= all[j].0 by {
            if j < few.len() {
                assert(all[i] == few[i] && all[j] == few[j]);
            } else {
                assert(all[i].0 <= t.last().pass);
            }
        }
    }
}

/// Lifetimes that were derived from a pass list lie inside it.
pub proof fn lemma_lifetimes_inside(passes: Seq<PassDecl>, usages: Usages)
    requires
        passes.len() <= usize::MAX,
        usages_match(usages, touches(passes, passes.len())),
    ensures
        passes_scheduled(usages, passes.len() as int),
        forall|id: u32| #[trigger]
            usages.contains_key(id) ==> usages[id].first_pass <= usages[id].last_pass
                < passes.len(),
{
    let t = touches(passes, passes.len());
    let n = passes.len() as int;
    lemma_touches_below(passes, passes.len());
    lemma_touches_in_order(passes, passes.len());
    assert forall|id: u32, i: int|
        #![trigger usages[id].usages@[i]]
        usages.contains_key(id) && 0 <= i < usages[id].usages@.len() implies usages[id].usages@[i].0
        < n by {
        lemma_usage_in_range(t, id, n);
        assert(usage_matches(usages[id], t, id));
    }
    assert forall|id: u32| #[trigger] usages.contains_key(id) implies usages[id].first_pass
        <= usages[id].last_pass < n by {
        lemma_usage_in_range(t, id, n);
        lemma_usages_in_order(t, id);
        assert(usage_matches(usages[id], t, id));
        let list = usages_of(t, id);
        assert(list[0].0 <= list[list.len() - 1].0);
        assert(list[list.len() - 1].0 < n);
    }
}

impl RenderGraph {
    /// Every temporal copy that was registered is there.
    pub open spec fn temporals_held(self) -> bool {
        registrations_held(self.temporal_resources@, self.registered_temporal@)
    }

    /// What compiling `self` into `after` gives: the passes that are needed run in the
    /// order of their declaration; every resource of the graph's own that they touch has
    /// a place; the barriers follow from both; the end state of every resource is known,
    /// and those of the temporal copies are carried back into their imports.
    pub open spec fn compiles_to(
        self,
        after: RenderGraph,
        frame: FramePlan,
        strategy: AliasStrategy,
        requirements: Map<u32, MemoryRequirements>,
        granularity: u64,
    ) -> bool {
        let infos = self.virtual_resources@;
        let usages = frame.analysis.resource_usages@;
        let n = after.passes@.len();
        &&& self.all_copies_land()
        &&& survivors(self, after.passes@)
        &&& frame.analysis.derives_from(declared(after.passes@))
        &&& frame.order@ == counting(n)
        &&& is_memory_plan(
            frame.placements@,
            frame.buckets@,
            strategy,
            infos,
            requirements,
            usages,
            frame.analysis.components@,
            granularity,
        )
        &&& recorded_views(frame.barriers@) == recorded(
            frame_barriers(infos, usages, counting(n), frame.placements@),
            counting(n),
            n,
        )
        &&& are_end_states(after.resource_end_states@, infos, usages, counting(n))
        &&& same_shape(after.temporal_resources@, self.temporal_resources@)
        &&& temporal_views(after.temporal_resources@) == written_back(
            temporal_views(self.temporal_resources@),
            self.registered_temporal@,
            after.resource_end_states@,
            self.registered_temporal@.len(),
        )
    }

    /// Compiles the frame that was declared. `requirements` are what the device asks for
    /// the memory behind each image and buffer that the graph makes.
    pub fn compile(
        &mut self,
        strategy: AliasStrategy,
        requirements: &HashMap<u32, MemoryRequirements>,
        granularity: u64,
    ) -> (r: SrResult<FramePlan>)
        requires
            old(self).frame_fits(),
            old(self).temporals_held(),
            measured(old(self).virtual_resources@, requirements@),
        ensures
            *final(self) == (RenderGraph {
                next_pass_id: (old(self).next_pass_id + old(self).internal_count()) as u32,
                passes: final(self).passes,
                prologue_copies: final(self).prologue_copies,
                output_resources: final(self).output_resources,
                resource_end_states: final(self).resource_end_states,
                temporal_resources: final(self).temporal_resources,
                ..*old(self)
            }),
            final(self).prologue_copies@.len() == 0,
            final(self).output_resources@ == old(self).output_resources@,
            match r {
                Ok(frame) => old(self).compiles_to(
                    *final(self),
                    frame,
                    strategy,
                    requirements@,
                    granularity,
                ),
                Err(e) => {
                    &&& old(self).names_first_miss(e)
                    &&& final(self).passes == old(self).passes
                    &&& final(self).resource_end_states == old(self).resource_end_states
                    &&& final(self).temporal_resources == old(self).temporal_resources
                },
            },
    {
        let analysis = self.prepare()?;
        let ghost passes = declared(self.passes@);
        let ghost n = self.passes@.len();
        let ghost infos = self.virtual_resources@;
        let ghost usages = analysis.resource_usages@;
        let ghost t = touches(passes, n);
        let (placements, buckets) = plan_memory(
            strategy,
            &self.virtual_resources,
            requirements,
            &analysis.resource_usages,
            &analysis.components,
            granularity,
        );
        proof {
            lemma_lifetimes_inside(passes, usages);
            assert(plans_frame(
                placements@,
                buckets@,
                strategy,
                infos,
                requirements@,
                usages,
                analysis.components@,
                n as int,
                granularity,
            ));
            law_every_used_resource_has_a_place(
                placements@,
                buckets@,
                strategy,
                infos,
                requirements@,
                usages,
                analysis.components@,
                n as int,
                granularity,
            );
        }
        match check_buckets(&buckets) {
            Ok(_) => {},
            Err(e) => {
                proof {
                    let b = choose|b: int| #[trigger] first_unsuitable(buckets@, b);
                    assert(allocatable(buckets@[b]));
                }
                return Err(e);
            },
        }
        let ghost weights = node_weights(analysis.dep_graph);
        proof {
            law_schedule_is_declaration_order(passes, weights, Seq::empty());
        }
        let order = match kahn_toposort(&analysis.dep_graph) {
            Ok(order) => order,
            Err(e) => {
                return Err(e);
            },
        };
        proof {
            law_schedule_is_declaration_order(passes, weights, order@);
            assert(order@ =~= counting(n));
        }
        let positions = schedule_positions(&order);
        proof {
            assert(positions@ =~= counting(n)) by {
                assert forall|k: int| 0 <= k < n implies positions@[k] == k by {
                    assert(order@[k] == k);
                }
            }
        }
        let (barriers, end_states) = plan_barriers(
            &self.virtual_resources,
            &analysis.resource_usages,
            &positions,
            &placements,
        );
        let ghost before = frame_barriers(infos, usages, counting(n), placements@);
        let barriers = in_order(barriers, &order, Ghost(before));
        self.resource_end_states = end_states;
        write_back(
            &mut self.temporal_resources,
            &self.registered_temporal,
            &self.resource_end_states,
        );
        Ok(FramePlan { order, barriers, placements, buckets, analysis })
    }
}

} // verus!
