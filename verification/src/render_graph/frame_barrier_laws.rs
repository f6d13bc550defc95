//! What the barriers of a compiled frame do, in terms of what its passes declare.

use vk_sync_fork::AccessType;
use vstd::prelude::*;

use crate::render_graph::access::{opens_write_epoch, ResourceRef};
use crate::render_graph::alias::AliasStrategy;
use crate::render_graph::analysis::{
    listed_touches, touches, usage_matches, usages_match, usages_of, PassDecl, Touch,
};
use crate::render_graph::analysis_laws::lemma_touches_in_order;
use crate::render_graph::barrier_laws::{
    are_runs, epoch_starts, is_run, law_barriers_stand_before_their_epoch, lemma_epoch_of,
    lemma_starts, lemma_starts_increase, made_of, span_end, Touches,
};
use crate::render_graph::barriers::{
    barrier_views, ends_as, epochs_of, epochs_of_all, last_write_of, resource_transitions, seed_of,
    transition_into, transitions_before, Epoch, ResourceBarrier, Transition,
};
use crate::render_graph::compile::{
    counting, declared, frame_barriers, recorded, recorded_views, FramePlan,
};
use crate::render_graph::compile_laws::uses;
use crate::render_graph::frame_laws::{lemma_places, lemma_scheduled_as_declared, names};
use crate::render_graph::graph::{AnyRenderPass, RenderGraph};
use crate::render_graph::memory_plan::MemoryRequirements;
use crate::render_graph::predecessors::{has_predecessors, Placements, Usages};
use crate::render_graph::resource::{GraphResourceDesc, GraphResourceInfo};

verus! {

// ---------------------------------------------------------------------------
// Accesses in the order of their declaration
// ---------------------------------------------------------------------------

/// Whether one of these declarations is of this access to the resource.
pub open spec fn lists_access(refs: Seq<ResourceRef>, id: u32, access: AccessType) -> bool {
    exists|k: int|
        0 <= k < refs.len() && (#[trigger] refs[k]).id == id && refs[k].access.access_type == access
}

/// Whether a pass declares this access to a resource.
pub open spec fn makes(
    passes: Seq<AnyRenderPass>,
    p: int,
    id: u32,
    access: AccessType,
) -> bool {
    0 <= p < passes.len() && (lists_access(passes[p].data().read@, id, access) || lists_access(
        passes[p].data().write@,
        id,
        access,
    ))
}

/// Whether a pass no earlier than this one makes the access.
pub open spec fn made_from(
    passes: Seq<AnyRenderPass>,
    p: int,
    id: u32,
    access: AccessType,
) -> bool {
    exists|q: int| p <= q && #[trigger] makes(passes, q, id, access)
}

/// Whether a pass no later than this one makes the access.
pub open spec fn made_until(
    passes: Seq<AnyRenderPass>,
    p: int,
    id: u32,
    access: AccessType,
) -> bool {
    exists|q: int| q <= p && #[trigger] makes(passes, q, id, access)
}

/// Whether what a pass declares as read does not write, and what it declares as written
/// does.
pub open spec fn declared_well(pass: AnyRenderPass) -> bool {
    &&& forall|k: int|
        0 <= k < pass.data().read@.len() ==> !opens_write_epoch(
            (#[trigger] pass.data().read@[k]).access.access_type,
        )
    &&& forall|k: int|
        0 <= k < pass.data().write@.len() ==> opens_write_epoch(
            (#[trigger] pass.data().write@[k]).access.access_type,
        )
}

/// Where a declaration stands among all touches.
pub open spec fn touch_index(passes: Seq<PassDecl>, p: int, write: bool, k: int) -> int {
    touches(passes, p as nat).len() + if write {
        passes[p].0@.len() + k
    } else {
        k
    }
}

/// What a pass declares as written, or as read.
pub open spec fn list_of(passes: Seq<PassDecl>, p: int, write: bool) -> Seq<ResourceRef> {
    if write {
        passes[p].1@
    } else {
        passes[p].0@
    }
}

/// A declaration is among the touches, where its place says.
pub proof fn lemma_at(passes: Seq<PassDecl>, n: nat, p: int, write: bool, k: int)
    requires
        0 <= p < n <= passes.len() <= usize::MAX,
        0 <= k < list_of(passes, p, write).len(),
    ensures
        0 <= touch_index(passes, p, write, k) < touches(passes, n).len(),
        ({
            let r = list_of(passes, p, write)[k];
            touches(passes, n)[touch_index(passes, p, write, k)] == (Touch {
                pass: p as usize,
                id: r.id,
                write,
                access: r.access,
            })
        }),
    decreases n,
{
    if p < n - 1 {
        lemma_at(passes, (n - 1) as nat, p, write, k);
    }
}

/// A touch is of a declaration, and stands where its place says.
pub proof fn lemma_from(passes: Seq<PassDecl>, n: nat, i: int) -> (k: int)
    requires
        n <= passes.len() <= usize::MAX,
        0 <= i < touches(passes, n).len(),
    ensures
        ({
            let x = touches(passes, n)[i];
            &&& x.pass < n
            &&& 0 <= k < list_of(passes, x.pass as int, x.write).len()
            &&& list_of(passes, x.pass as int, x.write)[k].id == x.id
            &&& list_of(passes, x.pass as int, x.write)[k].access == x.access
            &&& i == touch_index(passes, x.pass as int, x.write, k)
        }),
    decreases n,
{
    let m = (n - 1) as nat;
    let rest = touches(passes, m);
    let reads = listed_touches(passes[m as int].0@, m as usize, false);
    if i < rest.len() {
        lemma_from(passes, m, i)
    } else if i < rest.len() + reads.len() {
        i - rest.len()
    } else {
        i - rest.len() - reads.len()
    }
}

/// What is known of the touches of one resource, in the order in which they run.
spec fn is_history(passes: Seq<AnyRenderPass>, id: u32, list: Touches) -> bool {
    &&& forall|k: int|
        0 <= k < list.len() ==> makes(passes, (#[trigger] list[k]).0 as int, id, list[k].1)
    &&& forall|p: int, access: AccessType| #[trigger]
        makes(passes, p, id, access) ==> touched_by(list, p, access)
    &&& forall|i: int, j: int| #![trigger list[i], list[j]]
        0 <= i <= j < list.len() ==> list[i].0 <= list[j].0
    &&& forall|i: int, j: int| #![trigger list[i], list[j]]
        0 <= i < j < list.len() && list[i].0 == list[j].0 && declared_well(
            passes[list[i].0 as int],
        ) && opens_write_epoch(list[i].1) ==> opens_write_epoch(list[j].1)
}

spec fn touched_by(list: Touches, p: int, access: AccessType) -> bool {
    exists|k: int| 0 <= k < list.len() && (#[trigger] list[k]).0 == p && list[k].1 == access
}

proof fn lemma_history(
    passes: Seq<AnyRenderPass>,
    infos: Seq<GraphResourceInfo>,
    usages: Usages,
    id: u32,
) -> (list: Touches)
    requires
        passes.len() <= usize::MAX,
        id < infos.len(),
        usages_match(usages, touches(declared(passes), passes.len())),
    ensures
        is_history(passes, id, list),
        epochs_of_all(infos, usages, counting(passes.len()))[id as int] == epochs_of(
            list,
            infos[id as int].image(),
            list.len(),
        ),
{
    let ds = declared(passes);
    let n = passes.len();
    let t = touches(ds, n);
    let used = usages_of(t, id);
    let at = lemma_places(t, id);
    lemma_touches_in_order(ds, n);
    let list = Seq::new(used.len(), |i: int| (used[i].0, used[i].1.access_type));
    assert forall|k: int| 0 <= k < list.len() implies makes(
        passes,
        (#[trigger] list[k]).0 as int,
        id,
        list[k].1,
    ) by {
        let i = at[k];
        let j = lemma_from(ds, n, i);
        let p = t[i].pass as int;
        let refs = list_of(ds, p, t[i].write);
        assert(refs[j].id == id && refs[j].access.access_type == list[k].1);
        if t[i].write {
            assert(lists_access(passes[p].data().write@, id, list[k].1));
        } else {
            assert(lists_access(passes[p].data().read@, id, list[k].1));
        }
    }
    assert forall|p: int, access: AccessType| #[trigger] makes(passes, p, id, access) implies touched_by(
        list,
        p,
        access,
    ) by {
        let write = lists_access(passes[p].data().write@, id, access);
        let refs = list_of(ds, p, write);
        let j = choose|k: int|
            0 <= k < refs.len() && (#[trigger] refs[k]).id == id && refs[k].access.access_type
                == access;
        lemma_at(ds, n, p, write, j);
        let i = touch_index(ds, p, write, j);
        assert(at.contains(i));
        let k = choose|k: int| 0 <= k < at.len() && at[k] == i;
        assert(list[k].0 == p && list[k].1 == access);
    }
    assert forall|i: int, j: int| #![trigger list[i], list[j]]
        0 <= i <= j < list.len() implies list[i].0 <= list[j].0 by {
        if i < j {
            assert(at[i] < at[j]);
        }
        assert(t[at[i]].pass <= t[at[j]].pass);
    }
    assert forall|i: int, j: int| #![trigger list[i], list[j]]
        0 <= i < j < list.len() && list[i].0 == list[j].0 && declared_well(
            passes[list[i].0 as int],
        ) && opens_write_epoch(list[i].1) implies opens_write_epoch(list[j].1) by {
        assert(at[i] < at[j]);
        let p = list[i].0 as int;
        let a = lemma_from(ds, n, at[i]);
        let b = lemma_from(ds, n, at[j]);
        assert(t[at[i]].pass == p && t[at[j]].pass == p);
        if !t[at[i]].write {
            assert(passes[p].data().read@[a].access.access_type == list[i].1);
        }
        if t[at[j]].write {
            assert(passes[p].data().write@[b].access.access_type == list[j].1);
        }
    }
    assert forall|i: int, j: int| #![trigger used[i], used[j]]
        0 <= i <= j < used.len() implies used[i].0 <= used[j].0 by {
        assert(list[i].0 <= list[j].0);
    }
    assert forall|i: int| 0 <= i < used.len() implies (#[trigger] used[i]).0 < n by {
        assert(makes(passes, list[i].0 as int, id, list[i].1));
    }
    lemma_scheduled_as_declared(used, n);
    assert(usages.contains_key(id) <==> used.len() > 0);
    if used.len() > 0 {
        assert(usage_matches(usages[id], t, id));
    }
    assert(epochs_of_all(infos, usages, counting(n))[id as int] =~= epochs_of(
        list,
        infos[id as int].image(),
        list.len(),
    ));
    list
}

// ---------------------------------------------------------------------------
// Barriers as they are recorded
// ---------------------------------------------------------------------------

/// Whether the `k`-th barrier of the `e`-th batch of a frame stands right before pass `p`
/// and is on the resource.
pub open spec fn stands(frame: FramePlan, e: int, k: int, p: int, id: u32) -> bool {
    &&& 0 <= e < frame.barriers@.len()
    &&& frame.barriers@[e].0 == p
    &&& 0 <= k < frame.barriers@[e].1@.len()
    &&& frame.barriers@[e].1@[k].resource_id == id
}

/// That barrier.
pub open spec fn barrier_at(frame: FramePlan, e: int, k: int) -> ResourceBarrier {
    frame.barriers@[e].1@[k]
}

proof fn lemma_recorded(before: spec_fn(int) -> Seq<Transition>, n: nat, m: nat)
    requires
        m <= n <= usize::MAX,
    ensures
        forall|e: int|
            0 <= e < recorded(before, counting(n), m).len() ==> (#[trigger] recorded(
                before,
                counting(n),
                m,
            )[e]).0 < m && recorded(before, counting(n), m)[e].1 == before(
                recorded(before, counting(n), m)[e].0 as int,
            ),
        forall|p: int|
            0 <= p < m && (#[trigger] before(p)).len() > 0 ==> recorded(before, counting(n), m).contains(
                (p as usize, before(p)),
            ),
    decreases m,
{
    if m > 0 {
        lemma_recorded(before, n, (m - 1) as nat);
        let rest = recorded(before, counting(n), (m - 1) as nat);
        let all = recorded(before, counting(n), m);
        assert(counting(n)[m - 1] == m - 1);
        assert forall|p: int| 0 <= p < m && (#[trigger] before(p)).len() > 0 implies all.contains(
            (p as usize, before(p)),
        ) by {
            if p < m - 1 {
                let k = choose|k: int| 0 <= k < rest.len() && rest[k] == (p as usize, before(p));
                assert(all[k] == rest[k]);
            } else {
                assert(all[rest.len() as int] == (p as usize, before(p)));
            }
        }
    }
}

proof fn lemma_found(
    frame: FramePlan,
    before: spec_fn(int) -> Seq<Transition>,
    n: nat,
    p: int,
    wanted: Transition,
) -> (r: (int, int))
    requires
        n <= usize::MAX,
        recorded_views(frame.barriers@) == recorded(before, counting(n), n),
        0 <= p < n,
        before(p).contains(wanted),
    ensures
        stands(frame, r.0, r.1, p, wanted.resource_id),
        barrier_at(frame, r.0, r.1)@ == wanted,
{
    lemma_recorded(before, n, n);
    let here = before(p);
    let k = choose|k: int| 0 <= k < here.len() && here[k] == wanted;
    let all = recorded(before, counting(n), n);
    assert(all.contains((p as usize, before(p))));
    let e = choose|e: int| 0 <= e < all.len() && all[e] == (p as usize, before(p));
    assert(recorded_views(frame.barriers@)[e] == (
        frame.barriers@[e].0,
        barrier_views(frame.barriers@[e].1@),
    ));
    assert(barrier_views(frame.barriers@[e].1@)[k] == frame.barriers@[e].1@[k]@);
    (e, k)
}

proof fn lemma_transition_of(
    id: u32,
    seed: Option<Seq<AccessType>>,
    epochs: Seq<Epoch>,
    pass: int,
    n: nat,
    k: int,
) -> (i: int)
    requires
        0 <= k < resource_transitions(id, seed, epochs, pass, n).len(),
    ensures
        0 <= i < n,
        epochs[i].first_pass == pass,
        transition_into(id, seed, epochs, i) == Some(
            resource_transitions(id, seed, epochs, pass, n)[k],
        ),
    decreases n,
{
    let rest = resource_transitions(id, seed, epochs, pass, (n - 1) as nat);
    if k < rest.len() {
        lemma_transition_of(id, seed, epochs, pass, (n - 1) as nat, k)
    } else {
        n - 1
    }
}

proof fn lemma_whose(
    infos: Seq<GraphResourceInfo>,
    all: Seq<Seq<Epoch>>,
    placements: Placements,
    usages: Usages,
    pass: int,
    n: nat,
    k: int,
) -> (r: (u32, int))
    requires
        n <= infos.len() <= u32::MAX,
        all.len() == infos.len(),
        0 <= k < transitions_before(infos, all, placements, usages, pass, n).len(),
    ensures
        r.0 < n,
        0 <= r.1 < all[r.0 as int].len(),
        all[r.0 as int][r.1].first_pass == pass,
        transition_into(
            r.0,
            seed_of(infos[r.0 as int], all, placements, usages, r.0),
            all[r.0 as int],
            r.1,
        ) == Some(transitions_before(infos, all, placements, usages, pass, n)[k]),
    decreases n,
{
    let m = (n - 1) as nat;
    let rest = transitions_before(infos, all, placements, usages, pass, m);
    if k < rest.len() {
        lemma_whose(infos, all, placements, usages, pass, m, k)
    } else {
        let id = m as u32;
        let i = lemma_transition_of(
            id,
            seed_of(infos[m as int], all, placements, usages, id),
            all[m as int],
            pass,
            all[m as int].len(),
            k - rest.len(),
        );
        (id, i)
    }
}

/// What a frame has to be for its barriers to be spoken of.
pub open spec fn compiled(
    graph: RenderGraph,
    after: RenderGraph,
    frame: FramePlan,
    strategy: AliasStrategy,
    requirements: Map<u32, MemoryRequirements>,
    granularity: u64,
) -> bool {
    &&& graph.virtual_resources@.len() <= u32::MAX
    &&& after.passes@.len() <= usize::MAX
    &&& graph.compiles_to(after, frame, strategy, requirements, granularity)
}

/// Between the last touch of one pass and the touches of the next an epoch is entered, if
/// one of them writes.
proof fn lemma_crossing(
    list: Touches,
    is_image: bool,
    epochs: Seq<Epoch>,
    starts: Seq<int>,
    i: int,
    jy: int,
) -> (e: int)
    requires
        are_runs(list, is_image, list.len() as int, epochs, starts),
        0 <= i < jy < list.len(),
        list[i].0 < list[i + 1].0,
        list[i + 1].0 == list[jy].0,
        opens_write_epoch(list[i].1) || opens_write_epoch(list[jy].1),
        forall|i: int, j: int| #![trigger list[i], list[j]]
            0 <= i <= j < list.len() ==> list[i].0 <= list[j].0,
    ensures
        0 < e < epochs.len(),
        starts[e - 1] <= i < starts[e] <= jy,
        span_end(starts, list.len() as int, e - 1) == starts[e],
        epochs[e].first_pass == list[jy].0,
        list[starts[e]].0 == list[jy].0,
        epochs[e - 1].first_pass != epochs[e - 1].last_pass || epochs[e - 1].last_pass
            != epochs[e].first_pass,
{
    let len = list.len() as int;
    let j = i + 1;
    let ea = lemma_epoch_of(list, is_image, len, epochs, starts, i);
    let eb = lemma_epoch_of(list, is_image, len, epochs, starts, j);
    assert(is_run(list, is_image, len, epochs, starts, ea));
    assert(is_run(list, is_image, len, epochs, starts, eb));
    if eb < ea {
        lemma_starts_increase(list, is_image, len, epochs, starts, eb, ea);
    }
    let e = ea + 1;
    let m = span_end(starts, len, ea);
    if ea < eb {
        lemma_starts_increase(list, is_image, len, epochs, starts, ea, eb);
        if e < eb {
            lemma_starts_increase(list, is_image, len, epochs, starts, e, eb);
        }
        assert(m == j);
    } else {
        assert(epochs[ea].is_write == opens_write_epoch(list[i].1));
        assert(m <= jy) by {
            if jy < m {
                assert(epochs[ea].is_write == opens_write_epoch(list[jy].1));
            }
        }
    }
    assert(e < epochs.len());
    assert(starts[e] == m);
    assert(is_run(list, is_image, len, epochs, starts, e));
    assert(list[j].0 <= list[m].0 <= list[jy].0);
    assert(list[starts[ea]].0 <= list[i].0);
    e
}

/// Two passes that use a resource one right after the other, at least one of them writing,
/// are ordered: right before the second stands a barrier on the resource that keeps its
/// contents, waits for an access of the first and lets in one of the second.
pub proof fn law_hazards_are_ordered(
    graph: RenderGraph,
    after: RenderGraph,
    frame: FramePlan,
    strategy: AliasStrategy,
    requirements: Map<u32, MemoryRequirements>,
    granularity: u64,
    id: u32,
    a: int,
    b: int,
    x: AccessType,
    y: AccessType,
) -> (r: (int, int))
    requires
        compiled(graph, after, frame, strategy, requirements, granularity),
        id < graph.virtual_resources@.len(),
        a < b,
        makes(after.passes@, a, id, x),
        makes(after.passes@, b, id, y),
        opens_write_epoch(x) || opens_write_epoch(y),
        declared_well(after.passes@[a]),
        forall|p: int| a < p < b ==> !uses(after.passes@, p, id),
    ensures
        stands(frame, r.0, r.1, b, id),
        !barrier_at(frame, r.0, r.1).discard,
        exists|k: int|
            0 <= k < barrier_at(frame, r.0, r.1).prev@.len() && makes(
                after.passes@,
                a,
                id,
                #[trigger] barrier_at(frame, r.0, r.1).prev@[k],
            ),
        exists|k: int|
            0 <= k < barrier_at(frame, r.0, r.1).next@.len() && makes(
                after.passes@,
                b,
                id,
                #[trigger] barrier_at(frame, r.0, r.1).next@[k],
            ),
{
    let passes = after.passes@;
    let infos = graph.virtual_resources@;
    let usages = frame.analysis.resource_usages@;
    let n = passes.len();
    let info = infos[id as int];
    let list = lemma_history(passes, infos, usages, id);
    let all = epochs_of_all(infos, usages, counting(n));
    let epochs = all[id as int];
    let len = list.len() as int;
    let starts = epoch_starts(list, info.image(), list.len());
    lemma_starts(list, info.image(), list.len());
    assert(touched_by(list, a, x));
    assert(touched_by(list, b, y));
    let ix = choose|k: int| 0 <= k < list.len() && (#[trigger] list[k]).0 == a && list[k].1 == x;
    let jy = choose|k: int| 0 <= k < list.len() && (#[trigger] list[k]).0 == b && list[k].1 == y;
    assert(ix < jy) by {
        if jy <= ix {
            assert(list[jy].0 <= list[ix].0);
        }
    }
    let i = lemma_last_of(list, ix, a, jy);
    assert(opens_write_epoch(list[i].1) || opens_write_epoch(y)) by {
        if ix < i && opens_write_epoch(x) {
            assert(list[ix].0 == list[i].0);
        }
    }
    let j = i + 1;
    assert(list[j].0 == b) by {
        assert(list[i].0 <= list[j].0 <= list[jy].0);
        let q = list[j].0 as int;
        assert(makes(passes, q, id, list[j].1));
        if q != b {
            lemma_makes_uses(passes, q, id, list[j].1);
        }
    }
    let e = lemma_crossing(list, info.image(), epochs, starts, i, jy);
    let ea = e - 1;
    assert(is_run(list, info.image(), len, epochs, starts, ea));
    assert(is_run(list, info.image(), len, epochs, starts, e));
    let seed = seed_of(info, all, frame.placements@, usages, id);
    assert(epochs[e].first_pass == b);
    let wanted = transition_into(id, seed, epochs, e);
    law_barriers_stand_before_their_epoch(infos, all, frame.placements@, usages, id, e);
    let before = frame_barriers(infos, usages, counting(n), frame.placements@);
    let r = lemma_found(frame, before, n, b, wanted->0);
    let barrier = barrier_at(frame, r.0, r.1);
    assert(epochs[ea].accesses.contains(list[i].1));
    let k = choose|k: int| 0 <= k < epochs[ea].accesses.len() && epochs[ea].accesses[k] == list[i].1;
    assert(makes(passes, a, id, list[i].1));
    assert(barrier.prev@[k] == list[i].1);
    let first = starts[e];
    assert(epochs[e].accesses.contains(list[first].1));
    let l = choose|l: int|
        0 <= l < epochs[e].accesses.len() && epochs[e].accesses[l] == list[first].1;
    assert(makes(passes, b, id, list[first].1));
    assert(barrier.next@[l] == list[first].1);
    r
}

proof fn lemma_makes_uses(passes: Seq<AnyRenderPass>, p: int, id: u32, access: AccessType)
    requires
        makes(passes, p, id, access),
    ensures
        uses(passes, p, id),
{
    if lists_access(passes[p].data().read@, id, access) {
        let refs = passes[p].data().read@;
        let k = choose|k: int|
            0 <= k < refs.len() && (#[trigger] refs[k]).id == id && refs[k].access.access_type
                == access;
        assert(names(refs, id));
    } else {
        let refs = passes[p].data().write@;
        let k = choose|k: int|
            0 <= k < refs.len() && (#[trigger] refs[k]).id == id && refs[k].access.access_type
                == access;
        assert(names(refs, id));
    }
}

proof fn lemma_uses_makes(passes: Seq<AnyRenderPass>, p: int, id: u32) -> (access: AccessType)
    requires
        uses(passes, p, id),
    ensures
        makes(passes, p, id, access),
{
    let refs = if names(passes[p].data().read@, id) {
        passes[p].data().read@
    } else {
        passes[p].data().write@
    };
    let k = choose|k: int| 0 <= k < refs.len() && (#[trigger] refs[k]).id == id;
    let access = refs[k].access.access_type;
    assert(lists_access(refs, id, access));
    access
}

proof fn lemma_last_of(list: Touches, i: int, p: int, bound: int) -> (l: int)
    requires
        0 <= i < bound < list.len(),
        list[i].0 == p,
        list[bound].0 != p,
        forall|i: int, j: int| #![trigger list[i], list[j]]
            0 <= i <= j < list.len() ==> list[i].0 <= list[j].0,
    ensures
        i <= l < bound,
        list[l].0 == p,
        list[l + 1].0 != p,
    decreases bound - i,
{
    if list[i + 1].0 == p {
        lemma_last_of(list, i + 1, p, bound)
    } else {
        i
    }
}

/// Every barrier is called for: it is on a resource that the pass behind it uses, and lets
/// in accesses that passes from there on make. Contents are dropped only in front of the
/// first use of something the graph makes. Any other barrier waits for accesses that were
/// made before, and keeps the contents.
pub proof fn law_every_barrier_is_called_for(
    graph: RenderGraph,
    after: RenderGraph,
    frame: FramePlan,
    strategy: AliasStrategy,
    requirements: Map<u32, MemoryRequirements>,
    granularity: u64,
    e: int,
    k: int,
)
    requires
        compiled(graph, after, frame, strategy, requirements, granularity),
        0 <= e < frame.barriers@.len(),
        0 <= k < frame.barriers@[e].1@.len(),
    ensures
        ({
            let p = frame.barriers@[e].0 as int;
            let barrier = barrier_at(frame, e, k);
            let id = barrier.resource_id;
            &&& id < graph.virtual_resources@.len()
            &&& uses(after.passes@, p, id)
            &&& barrier.next@.len() > 0
            &&& forall|i: int|
                0 <= i < barrier.next@.len() ==> made_from(
                    after.passes@,
                    p,
                    id,
                    #[trigger] barrier.next@[i],
                )
            &&& barrier.discard ==> graph.virtual_resources@[id as int] is Created && forall|q: int|
                0 <= q < p ==> !#[trigger] uses(after.passes@, q, id)
            &&& !barrier.discard ==> barrier.prev@.len() > 0 && forall|i: int|
                0 <= i < barrier.prev@.len() ==> made_until(
                    after.passes@,
                    p,
                    id,
                    #[trigger] barrier.prev@[i],
                )
        }),
{
    let passes = after.passes@;
    let infos = graph.virtual_resources@;
    let usages = frame.analysis.resource_usages@;
    let n = passes.len();
    let all = epochs_of_all(infos, usages, counting(n));
    let before = frame_barriers(infos, usages, counting(n), frame.placements@);
    let p = frame.barriers@[e].0 as int;
    let barrier = barrier_at(frame, e, k);
    lemma_recorded(before, n, n);
    assert(recorded_views(frame.barriers@)[e] == (
        frame.barriers@[e].0,
        barrier_views(frame.barriers@[e].1@),
    ));
    assert(barrier_views(frame.barriers@[e].1@)[k] == barrier@);
    assert(before(p)[k] == barrier@);
    let (id, i) = lemma_whose(infos, all, frame.placements@, usages, p, infos.len(), k);
    let info = infos[id as int];
    let list = lemma_history(passes, infos, usages, id);
    let epochs = all[id as int];
    let len = list.len() as int;
    let starts = epoch_starts(list, info.image(), list.len());
    lemma_starts(list, info.image(), list.len());
    assert(is_run(list, info.image(), len, epochs, starts, i));
    assert(makes(passes, list[starts[i]].0 as int, id, list[starts[i]].1));
    lemma_makes_uses(passes, p, id, list[starts[i]].1);
    assert forall|j: int| 0 <= j < barrier.next@.len() implies made_from(
        passes,
        p,
        id,
        #[trigger] barrier.next@[j],
    ) by {
        assert(made_of(list, starts[i], span_end(starts, len, i), epochs[i].accesses[j]));
        let c = choose|c: int|
            starts[i] <= c < span_end(starts, len, i) && (#[trigger] list[c]).1
                == epochs[i].accesses[j];
        assert(list[starts[i]].0 <= list[c].0);
        assert(makes(passes, list[c].0 as int, id, barrier.next@[j]));
    }
    if i == 0 {
        assert(starts[0] == 0);
        assert forall|q: int| 0 <= q < p implies !#[trigger] uses(passes, q, id) by {
            if uses(passes, q, id) {
                let access = lemma_uses_makes(passes, q, id);
                assert(touched_by(list, q, access));
                let c = choose|c: int|
                    0 <= c < list.len() && (#[trigger] list[c]).0 == q && list[c].1 == access;
                assert(list[0].0 <= list[c].0);
            }
        }
    } else {
        assert(is_run(list, info.image(), len, epochs, starts, i - 1));
        assert forall|j: int| 0 <= j < barrier.prev@.len() implies made_until(
            passes,
            p,
            id,
            #[trigger] barrier.prev@[j],
        ) by {
            assert(made_of(
                list,
                starts[i - 1],
                span_end(starts, len, i - 1),
                epochs[i - 1].accesses[j],
            ));
            let c = choose|c: int|
                starts[i - 1] <= c < span_end(starts, len, i - 1) && (#[trigger] list[c]).1
                    == epochs[i - 1].accesses[j];
            assert(list[c].0 <= list[starts[i]].0);
            assert(makes(passes, list[c].0 as int, id, barrier.prev@[j]));
        }
    }
}

/// An image that the graph makes is entered through a barrier that drops its contents, in
/// front of the first pass that uses it: what its memory held before means nothing.
pub proof fn law_new_images_are_entered_fresh(
    graph: RenderGraph,
    after: RenderGraph,
    frame: FramePlan,
    strategy: AliasStrategy,
    requirements: Map<u32, MemoryRequirements>,
    granularity: u64,
    id: u32,
    p: int,
) -> (r: (int, int))
    requires
        compiled(graph, after, frame, strategy, requirements, granularity),
        id < graph.virtual_resources@.len(),
        graph.virtual_resources@[id as int] matches GraphResourceInfo::Created(
            GraphResourceDesc::Image(_),
        ),
        uses(after.passes@, p, id),
        forall|q: int| 0 <= q < p ==> !#[trigger] uses(after.passes@, q, id),
        !has_predecessors(frame.placements@, frame.analysis.resource_usages@, id),
    ensures
        stands(frame, r.0, r.1, p, id),
        barrier_at(frame, r.0, r.1).discard,
        barrier_at(frame, r.0, r.1).prev@.len() == 1,
        barrier_at(frame, r.0, r.1).prev@[0] == AccessType::Nothing,
{
    let passes = after.passes@;
    let infos = graph.virtual_resources@;
    let usages = frame.analysis.resource_usages@;
    let n = passes.len();
    let all = epochs_of_all(infos, usages, counting(n));
    let info = infos[id as int];
    let list = lemma_history(passes, infos, usages, id);
    let epochs = all[id as int];
    let len = list.len() as int;
    let starts = epoch_starts(list, info.image(), list.len());
    lemma_starts(list, info.image(), list.len());
    let access = lemma_uses_makes(passes, p, id);
    assert(touched_by(list, p, access));
    let c = choose|c: int| 0 <= c < list.len() && (#[trigger] list[c]).0 == p && list[c].1 == access;
    assert(is_run(list, info.image(), len, epochs, starts, 0));
    assert(list[0].0 == p) by {
        assert(list[0].0 <= list[c].0);
        assert(makes(passes, list[0].0 as int, id, list[0].1));
        lemma_makes_uses(passes, list[0].0 as int, id, list[0].1);
    }
    let seed = seed_of(info, all, frame.placements@, usages, id);
    law_barriers_stand_before_their_epoch(infos, all, frame.placements@, usages, id, 0);
    let before = frame_barriers(infos, usages, counting(n), frame.placements@);
    lemma_found(frame, before, n, p, transition_into(id, seed, epochs, 0)->0)
}

// ---------------------------------------------------------------------------
// End states
// ---------------------------------------------------------------------------

proof fn lemma_last_write(
    list: Touches,
    is_image: bool,
    epochs: Seq<Epoch>,
    starts: Seq<int>,
    n: nat,
)
    requires
        are_runs(list, is_image, list.len() as int, epochs, starts),
        n <= epochs.len(),
    ensures
        match last_write_of(epochs.take(n as int)) {
            Some(w) => exists|e: int| #[trigger] is_last_write_epoch(epochs, n as int, e)
                && epochs[e].accesses.contains(w),
            None => forall|e: int| 0 <= e < n ==> !(#[trigger] epochs[e]).is_write,
        },
    decreases n,
{
    let few = epochs.take(n as int);
    if n > 0 {
        let e = n - 1;
        assert(is_run(list, is_image, list.len() as int, epochs, starts, e));
        assert(few.last() == epochs[e]);
        if epochs[e].is_write {
            assert(is_last_write_epoch(epochs, n as int, e));
            assert(epochs[e].accesses[epochs[e].accesses.len() - 1] == epochs[e].accesses.last());
        } else {
            lemma_last_write(list, is_image, epochs, starts, (n - 1) as nat);
            assert(few.drop_last() =~= epochs.take(n - 1));
            if let Some(w) = last_write_of(epochs.take(n - 1)) {
                let d = choose|d: int| #[trigger] is_last_write_epoch(epochs, n - 1, d)
                    && epochs[d].accesses.contains(w);
                assert(is_last_write_epoch(epochs, n as int, d));
            }
        }
    }
}

spec fn is_last_write_epoch(epochs: Seq<Epoch>, n: int, e: int) -> bool {
    0 <= e < n && epochs[e].is_write && forall|d: int| e < d < n ==> !(#[trigger] epochs[d]).is_write
}

/// How a frame leaves a resource is what its last uses say: the last pass that uses it is
/// named, some access of that pass is among those it is left in, and all of those were made
/// by passes. The write that it holds was made by a pass behind which nobody writes it.
/// Nothing is left of a resource that nobody uses. What the graph makes is its own.
pub proof fn law_end_states_are_the_last_uses(
    graph: RenderGraph,
    after: RenderGraph,
    frame: FramePlan,
    strategy: AliasStrategy,
    requirements: Map<u32, MemoryRequirements>,
    granularity: u64,
    id: u32,
)
    requires
        compiled(graph, after, frame, strategy, requirements, granularity),
        id < graph.virtual_resources@.len(),
    ensures
        after.resource_end_states@.contains_key(id),
        ({
            let end = after.resource_end_states@[id];
            &&& end.internal <==> graph.virtual_resources@[id as int] is Created
            &&& match end.last_use_pass {
                Some(p) => {
                    &&& uses(after.passes@, p as int, id)
                    &&& forall|q: int| q > p ==> !#[trigger] uses(after.passes@, q, id)
                    &&& exists|i: int|
                        0 <= i < end.end_accesses@.len() && makes(
                            after.passes@,
                            p as int,
                            id,
                            #[trigger] end.end_accesses@[i],
                        )
                    &&& forall|i: int|
                        0 <= i < end.end_accesses@.len() ==> made_until(
                            after.passes@,
                            p as int,
                            id,
                            #[trigger] end.end_accesses@[i],
                        )
                },
                None => {
                    &&& forall|q: int| !#[trigger] uses(after.passes@, q, id)
                    &&& end.end_accesses@.len() == 0
                },
            }
            &&& match end.last_write {
                Some(w) => {
                    &&& opens_write_epoch(w)
                    &&& exists|p: int| #[trigger]
                        makes(after.passes@, p, id, w) && forall|q: int, x: AccessType|
                            q > p && #[trigger] makes(after.passes@, q, id, x)
                                ==> !opens_write_epoch(x)
                },
                None => forall|q: int, x: AccessType| #[trigger]
                    makes(after.passes@, q, id, x) ==> !opens_write_epoch(x),
            }
        }),
{
    let passes = after.passes@;
    let infos = graph.virtual_resources@;
    let usages = frame.analysis.resource_usages@;
    let n = passes.len();
    let all = epochs_of_all(infos, usages, counting(n));
    let info = infos[id as int];
    let list = lemma_history(passes, infos, usages, id);
    let epochs = all[id as int];
    let len = list.len() as int;
    let starts = epoch_starts(list, info.image(), list.len());
    lemma_starts(list, info.image(), list.len());
    assert(after.resource_end_states@.contains_key(id));
    let end = after.resource_end_states@[id];
    assert(ends_as(end, info, epochs));
    if epochs.len() == 0 {
        assert forall|q: int| !#[trigger] uses(passes, q, id) by {
            if uses(passes, q, id) {
                let access = lemma_uses_makes(passes, q, id);
                assert(touched_by(list, q, access));
            }
        }
        assert forall|q: int, x: AccessType| #[trigger] makes(passes, q, id, x) implies !opens_write_epoch(
            x,
        ) by {
            assert(touched_by(list, q, x));
        }
    } else {
        let e = epochs.len() - 1;
        assert(is_run(list, info.image(), len, epochs, starts, e));
        let p = list[len - 1].0 as int;
        assert(span_end(starts, len, e) == len);
        assert(makes(passes, p, id, list[len - 1].1));
        lemma_makes_uses(passes, p, id, list[len - 1].1);
        assert forall|q: int| q > p implies !#[trigger] uses(passes, q, id) by {
            if uses(passes, q, id) {
                let access = lemma_uses_makes(passes, q, id);
                assert(touched_by(list, q, access));
                let c = choose|c: int|
                    0 <= c < list.len() && (#[trigger] list[c]).0 == q && list[c].1 == access;
                assert(list[c].0 <= list[len - 1].0);
            }
        }
        assert(epochs[e].accesses.contains(list[len - 1].1));
        let l = choose|l: int|
            0 <= l < epochs[e].accesses.len() && epochs[e].accesses[l] == list[len - 1].1;
        assert(end.end_accesses@[l] == list[len - 1].1);
        assert forall|i: int| 0 <= i < end.end_accesses@.len() implies made_until(
            passes,
            p,
            id,
            #[trigger] end.end_accesses@[i],
        ) by {
            assert(made_of(list, starts[e], len, epochs[e].accesses[i]));
            let c = choose|c: int|
                starts[e] <= c < len && (#[trigger] list[c]).1 == epochs[e].accesses[i];
            assert(list[c].0 <= list[len - 1].0);
            assert(makes(passes, list[c].0 as int, id, end.end_accesses@[i]));
        }
        lemma_last_write(list, info.image(), epochs, starts, epochs.len());
        assert(epochs.take(epochs.len() as int) =~= epochs);
        match end.last_write {
            Some(w) => {
                let d = choose|d: int| #[trigger]
                    is_last_write_epoch(epochs, epochs.len() as int, d)
                        && epochs[d].accesses.contains(w);
                assert(is_run(list, info.image(), len, epochs, starts, d));
                let l = choose|l: int| 0 <= l < epochs[d].accesses.len() && epochs[d].accesses[l] == w;
                assert(made_of(list, starts[d], span_end(starts, len, d), epochs[d].accesses[l]));
                let c = choose|c: int|
                    starts[d] <= c < span_end(starts, len, d) && (#[trigger] list[c]).1 == w;
                let q0 = list[c].0 as int;
                assert(makes(passes, q0, id, w));
                assert forall|q: int, x: AccessType|
                    q > q0 && #[trigger] makes(passes, q, id, x) implies !opens_write_epoch(x) by {
                    assert(touched_by(list, q, x));
                    let g = choose|g: int|
                        0 <= g < list.len() && (#[trigger] list[g]).0 == q && list[g].1 == x;
                    let eg = lemma_epoch_of(list, info.image(), len, epochs, starts, g);
                    assert(is_run(list, info.image(), len, epochs, starts, eg));
                    assert(d < eg) by {
                        if eg < d {
                            lemma_starts_increase(list, info.image(), len, epochs, starts, eg, d);
                            assert(list[g].0 <= list[c].0);
                        }
                        if eg == d {
                            assert(g == c);
                        }
                    }
                }
            },
            None => {
                assert forall|q: int, x: AccessType| #[trigger] makes(
                    passes,
                    q,
                    id,
                    x,
                ) implies !opens_write_epoch(x) by {
                    assert(touched_by(list, q, x));
                    let g = choose|g: int|
                        0 <= g < list.len() && (#[trigger] list[g]).0 == q && list[g].1 == x;
                    let eg = lemma_epoch_of(list, info.image(), len, epochs, starts, g);
                    assert(is_run(list, info.image(), len, epochs, starts, eg));
                }
            },
        }
    }
}

} // verus!
