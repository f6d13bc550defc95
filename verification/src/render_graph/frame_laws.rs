//! What a compiled frame guarantees.

use vk_sync_fork::AccessType;
use vstd::prelude::*;

use crate::render_graph::access::{opens_write_epoch, PassResourceAccessType, ResourceRef};
use crate::render_graph::alias::Placement;
use crate::render_graph::analysis::{
    last_writer, listed_touches, producers_of, touches, usage_matches, usages_match, usages_of,
    PassDecl, Touch,
};
use crate::render_graph::analysis_laws::{in_pass_order, lemma_touches_in_order};
use crate::render_graph::barrier_laws::{
    epoch_starts, is_run, law_barriers_stand_before_their_epoch, law_every_hazard_gets_a_barrier,
    lemma_starts, passes_together, reads_first,
};
use crate::render_graph::barriers::{
    epochs_of, epochs_of_all, schedule_keys, scheduled, seed_of, transition_into, ResourceEndState,
    Transition,
};
use crate::render_graph::compile::{counting, frame_barriers, written_back};
use crate::render_graph::graph::AnyRenderPass;
use crate::render_graph::internal_passes::{
    kept, lemma_all_kept, needed_passes, results_of, write_lists,
};
use crate::render_graph::liveness::{
    is_live, lemma_producer_is_live, lemma_root_is_live, produces_for, roots_of, writes_any,
};
use crate::render_graph::predecessors::Usages;
use crate::render_graph::resource::{GraphResourceInfo, ImportState};
use crate::render_graph::sorting::{pair_lt, stable_order_of};

verus! {

/// Where the touches of one resource stand among all touches.
pub open spec fn lists_touches(t: Seq<Touch>, id: u32, at: Seq<int>) -> bool {
    let list = usages_of(t, id);
    &&& at.len() == list.len()
    &&& forall|k: int|
        0 <= k < at.len() ==> 0 <= #[trigger] at[k] < t.len() && t[at[k]].id == id && list[k] == (
            t[at[k]].pass,
            t[at[k]].access,
        )
    &&& forall|j: int, k: int| #![trigger at[j], at[k]] 0 <= j < k < at.len() ==> at[j] < at[k]
    &&& forall|i: int| 0 <= i < t.len() && (#[trigger] t[i]).id == id ==> at.contains(i)
}

pub proof fn lemma_places(t: Seq<Touch>, id: u32) -> (at: Seq<int>)
    ensures
        lists_touches(t, id, at),
    decreases t.len(),
{
    if t.len() == 0 {
        Seq::empty()
    } else {
        let rest = t.drop_last();
        let few = lemma_places(rest, id);
        let n = t.len() - 1;
        let at = if t.last().id == id {
            few.push(n)
        } else {
            few
        };
        assert forall|i: int| 0 <= i < t.len() && (#[trigger] t[i]).id == id implies at.contains(
            i,
        ) by {
            if i < n {
                assert(rest[i] == t[i]);
                assert(few.contains(i));
                let k = choose|k: int| 0 <= k < few.len() && few[k] == i;
                assert(at[k] == i);
            } else {
                assert(at[few.len() as int] == i);
            }
        }
        assert forall|k: int| 0 <= k < at.len() implies 0 <= #[trigger] at[k] < t.len() && t[at[k]].id
            == id && usages_of(t, id)[k] == (t[at[k]].pass, t[at[k]].access) by {
            if k < few.len() {
                assert(rest[few[k]] == t[few[k]]);
            }
        }
        at
    }
}

/// Touches that write are declared with accesses that open a write epoch, and no other.
spec fn touches_tell_writes(t: Seq<Touch>) -> bool {
    forall|i: int|
        0 <= i < t.len() ==> (#[trigger] t[i]).write == opens_write_epoch(t[i].access.access_type)
}

/// Within one pass reads come before writes.
spec fn touches_read_first(t: Seq<Touch>) -> bool {
    forall|i: int, j: int| #![trigger t[i], t[j]]
        0 <= i < j < t.len() && t[i].pass == t[j].pass && t[i].write ==> t[j].write
}

/// A pass that reads with reading accesses and writes with writing ones.
pub open spec fn well_declared(pass: PassDecl) -> bool {
    &&& forall|i: int|
        0 <= i < pass.0@.len() ==> !opens_write_epoch((#[trigger] pass.0@[i]).access.access_type)
    &&& forall|i: int|
        0 <= i < pass.1@.len() ==> opens_write_epoch((#[trigger] pass.1@[i]).access.access_type)
}

/// Whether some declaration is of the resource.
pub open spec fn names(refs: Seq<ResourceRef>, id: u32) -> bool {
    exists|i: int| 0 <= i < refs.len() && (#[trigger] refs[i]).id == id
}

proof fn lemma_touches_kinds(passes: Seq<PassDecl>, n: nat)
    requires
        n <= passes.len() <= usize::MAX,
        forall|p: int| 0 <= p < passes.len() ==> well_declared(#[trigger] passes[p]),
    ensures
        touches_tell_writes(touches(passes, n)),
        touches_read_first(touches(passes, n)),
        forall|i: int| 0 <= i < touches(passes, n).len() ==> (#[trigger] touches(passes, n)[i]).pass < n,
        forall|p: int, id: u32| #![trigger names(passes[p].0@, id)]
            0 <= p < n && names(passes[p].0@, id) ==> touched(touches(passes, n), p, id, false),
        forall|p: int, id: u32| #![trigger names(passes[p].1@, id)]
            0 <= p < n && names(passes[p].1@, id) ==> touched(touches(passes, n), p, id, true),
    decreases n,
{
    if n > 0 {
        let m = (n - 1) as nat;
        lemma_touches_kinds(passes, m);
        let rest = touches(passes, m);
        let reads = listed_touches(passes[n - 1].0@, (n - 1) as usize, false);
        let writes = listed_touches(passes[n - 1].1@, (n - 1) as usize, true);
        let t = touches(passes, n);
        let a = rest.len() as int;
        let b = a + reads.len();
        assert(t == rest + reads + writes);
        assert(well_declared(passes[n - 1]));
        assert forall|i: int| 0 <= i < t.len() implies (#[trigger] t[i]).write == opens_write_epoch(
            t[i].access.access_type,
        ) && t[i].pass < n by {
            if i < a {
                assert(t[i] == rest[i]);
            } else if i < b {
                assert(t[i] == reads[i - a]);
                assert(!opens_write_epoch(passes[n - 1].0@[i - a].access.access_type));
            } else {
                assert(t[i] == writes[i - b]);
                assert(opens_write_epoch(passes[n - 1].1@[i - b].access.access_type));
            }
        }
        assert forall|i: int, j: int| #![trigger t[i], t[j]]
            0 <= i < j < t.len() && t[i].pass == t[j].pass && t[i].write implies t[j].write by {
            if j < a {
                assert(t[i] == rest[i] && t[j] == rest[j]);
            } else if i < a {
                assert(t[i] == rest[i]);
                assert(rest[i].pass < m);
            } else if i < b {
                assert(t[i] == reads[i - a]);
            } else {
                assert(t[j] == writes[j - b]);
            }
        }
        assert forall|p: int, id: u32| #![trigger names(passes[p].0@, id)]
            0 <= p < n && names(passes[p].0@, id) implies touched(t, p, id, false) by {
            if p < m {
                assert(touched(rest, p, id, false));
                let i = choose|i: int| #[trigger] touched_at(rest, i, p, id, false);
                assert(touched_at(t, i, p, id, false));
            } else {
                let i = choose|i: int| 0 <= i < passes[p].0@.len() && (#[trigger] passes[p].0@[i]).id == id;
                assert(t[a + i] == reads[i]);
                assert(touched_at(t, a + i, p, id, false));
            }
        }
        assert forall|p: int, id: u32| #![trigger names(passes[p].1@, id)]
            0 <= p < n && names(passes[p].1@, id) implies touched(t, p, id, true) by {
            if p < m {
                assert(touched(rest, p, id, true));
                let i = choose|i: int| #[trigger] touched_at(rest, i, p, id, true);
                assert(touched_at(t, i, p, id, true));
            } else {
                let i = choose|i: int| 0 <= i < passes[p].1@.len() && (#[trigger] passes[p].1@[i]).id == id;
                assert(t[b + i] == writes[i]);
                assert(touched_at(t, b + i, p, id, true));
            }
        }
    }
}

spec fn touched_at(t: Seq<Touch>, i: int, p: int, id: u32, write: bool) -> bool {
    0 <= i < t.len() && t[i].pass == p && t[i].id == id && t[i].write == write
}

/// Whether pass `p` touches the resource in this way.
spec fn touched(t: Seq<Touch>, p: int, id: u32, write: bool) -> bool {
    exists|i: int| #[trigger] touched_at(t, i, p, id, write)
}

/// Indices whose keys ascend already stay where they are.
proof fn lemma_sorted_stays(keys: Seq<(int, int)>, n: nat)
    requires
        n <= keys.len(),
        forall|i: int, j: int| #![trigger keys[i], keys[j]]
            0 <= i <= j < keys.len() ==> !pair_lt(keys[j], keys[i]),
    ensures
        stable_order_of(keys, n) == Seq::new(n, |i: int| i),
    decreases n,
{
    if n > 0 {
        lemma_sorted_stays(keys, (n - 1) as nat);
        let inner = stable_order_of(keys, (n - 1) as nat);
        if inner.len() > 0 {
            assert(inner.last() == n - 2);
            assert(!pair_lt(keys[n - 1], keys[n - 2]));
        }
        assert(stable_order_of(keys, n) =~= Seq::new(n, |i: int| i));
    } else {
        assert(stable_order_of(keys, n) =~= Seq::new(n, |i: int| i));
    }
}

proof fn lemma_passes_ascend(t: Seq<Touch>, id: u32, at: Seq<int>)
    requires
        in_pass_order(t),
        lists_touches(t, id, at),
    ensures
        forall|i: int, j: int|
            #![trigger usages_of(t, id)[i], usages_of(t, id)[j]]
            0 <= i <= j < usages_of(t, id).len() ==> usages_of(t, id)[i].0 <= usages_of(t, id)[j].0,
{
    let list = usages_of(t, id);
    assert forall|i: int, j: int| #![trigger list[i], list[j]]
        0 <= i <= j < list.len() implies list[i].0 <= list[j].0 by {
        if i < j {
            assert(at[i] < at[j]);
        }
        assert(t[at[i]].pass <= t[at[j]].pass);
    }
}

/// In a frame whose passes run in the order of their declaration, the touches of a
/// resource are scheduled as they were declared.
pub proof fn lemma_scheduled_as_declared(
    list: Seq<(usize, PassResourceAccessType)>,
    n: nat,
)
    requires
        forall|i: int, j: int| #![trigger list[i], list[j]]
            0 <= i <= j < list.len() ==> list[i].0 <= list[j].0,
        forall|i: int| 0 <= i < list.len() ==> (#[trigger] list[i]).0 < n,
        n <= usize::MAX,
    ensures
        scheduled(list, counting(n)) == Seq::new(
            list.len(),
            |i: int| (list[i].0, list[i].1.access_type),
        ),
{
    let keys = schedule_keys(list, counting(n));
    assert forall|i: int, j: int| #![trigger keys[i], keys[j]]
        0 <= i <= j < keys.len() implies !pair_lt(keys[j], keys[i]) by {
        assert(list[i].0 <= list[j].0);
        assert(list[j].0 < n);
        assert(list[i].0 < n);
    }
    lemma_sorted_stays(keys, keys.len());
    assert(scheduled(list, counting(n)) =~= Seq::new(
        list.len(),
        |i: int| (list[i].0, list[i].1.access_type),
    ));
}

/// A barrier on the resource that keeps its contents.
pub open spec fn guards(x: Transition, id: u32) -> bool {
    x.resource_id == id && !x.discard
}

/// Some barrier on the resource is issued behind pass `a` and no later than before pass
/// `b`.
pub open spec fn guarded_between(
    before: spec_fn(int) -> Seq<Transition>,
    id: u32,
    a: int,
    b: int,
) -> bool {
    exists|p: int, k: int| #[trigger] guarded_at(before, id, p, k) && a < p <= b
}

/// The `k`th barrier before pass `p` is on the resource and keeps its contents.
pub open spec fn guarded_at(before: spec_fn(int) -> Seq<Transition>, id: u32, p: int, k: int) -> bool {
    0 <= k < before(p).len() && guards(before(p)[k], id)
}

/// Every hazard between two passes of a frame is guarded: where two passes touch a
/// resource and one of them writes it, a barrier on that resource stands behind the
/// first and before the second.
pub proof fn law_every_declared_hazard_is_guarded(
    passes: Seq<PassDecl>,
    infos: Seq<GraphResourceInfo>,
    usages: Usages,
    placements: Map<u32, Placement>,
    id: u32,
    a: int,
    b: int,
)
    requires
        passes.len() <= usize::MAX,
        infos.len() <= u32::MAX,
        forall|p: int| 0 <= p < passes.len() ==> well_declared(#[trigger] passes[p]),
        usages_match(usages, touches(passes, passes.len())),
        id < infos.len(),
        0 <= a < b < passes.len(),
        names(passes[a].0@, id) || names(passes[a].1@, id),
        names(passes[b].0@, id) || names(passes[b].1@, id),
        names(passes[a].1@, id) || names(passes[b].1@, id),
    ensures
        guarded_between(
            frame_barriers(infos, usages, counting(passes.len()), placements),
            id,
            a,
            b,
        ),
{
    let n = passes.len();
    let t = touches(passes, n);
    let used = usages_of(t, id);
    let at = lemma_places(t, id);
    lemma_touches_kinds(passes, n);
    lemma_touches_in_order(passes, n);
    lemma_passes_ascend(t, id, at);
    assert forall|i: int| 0 <= i < used.len() implies (#[trigger] used[i]).0 < n by {
        assert(t[at[i]].pass < n);
    }
    lemma_scheduled_as_declared(used, n);
    let list = Seq::new(used.len(), |i: int| (used[i].0, used[i].1.access_type));
    assert forall|i: int, j: int, k: int|
        #![trigger list[i], list[j], list[k]]
        0 <= i <= j <= k < list.len() && list[i].0 == list[k].0 implies list[j].0 == list[i].0 by {
        assert(used[i].0 <= used[j].0);
        assert(used[j].0 <= used[k].0);
    }
    assert(passes_together(list));
    assert forall|i: int, j: int| #![trigger list[i], list[j]]
        0 <= i < j < list.len() && list[i].0 == list[j].0 && opens_write_epoch(
            list[i].1,
        ) implies opens_write_epoch(list[j].1) by {
        assert(at[i] < at[j]);
        assert(t[at[i]].write);
        assert(t[at[j]].write);
    }
    assert(reads_first(list));
    // The last touch by `a`, and a touch by `b` that makes a hazard with it.
    let a_writes = names(passes[a].1@, id);
    let x = lemma_some_touch(t, id, at, a, a_writes);
    let i = lemma_last_of_pass(list, x, a);
    if a_writes {
        assert(opens_write_epoch(list[x].1));
        assert(x < i ==> opens_write_epoch(list[i].1));
    }
    let j = lemma_some_touch(t, id, at, b, names(passes[b].1@, id));
    assert(i < j) by {
        if j <= i {
            assert(used[j].0 <= used[i].0);
        }
    }
    let info = infos[id as int];
    let all = epochs_of_all(infos, usages, counting(n));
    let seed = seed_of(info, all, placements, usages, id);
    assert(usages_of(t, id).len() > 0);
    assert(usages.contains_key(id) <==> usages_of(t, id).len() > 0);
    assert(usage_matches(usages[id], t, id));
    assert(all[id as int] == epochs_of(list, info.image(), list.len()));
    let e = law_every_hazard_gets_a_barrier(list, info.image(), id, seed, i, j);
    let epochs = all[id as int];
    let starts = epoch_starts(list, info.image(), list.len());
    lemma_starts(list, info.image(), list.len());
    assert(is_run(list, info.image(), list.len() as int, epochs, starts, e));
    law_barriers_stand_before_their_epoch(infos, all, placements, usages, id, e);
    let p = epochs[e].first_pass;
    let before = frame_barriers(infos, usages, counting(n), placements);
    let wanted = transition_into(id, seed, epochs, e)->0;
    let issued = before(p);
    assert(issued.contains(wanted));
    let k = choose|k: int| 0 <= k < issued.len() && issued[k] == wanted;
    assert(guarded_at(before, id, p, k));
    assert(a < p <= b) by {
        assert(p == list[starts[e]].0);
        assert(used[i].0 <= used[starts[e]].0);
        assert(used[starts[e]].0 <= used[j].0);
        assert(list[starts[e]].0 != a);
    }
}

/// A touch of a pass that is known to touch the resource.
proof fn lemma_some_touch(t: Seq<Touch>, id: u32, at: Seq<int>, p: int, write: bool) -> (k: int)
    requires
        lists_touches(t, id, at),
        touches_tell_writes(t),
        touched(t, p, id, write),
    ensures
        0 <= k < usages_of(t, id).len(),
        usages_of(t, id)[k].0 == p,
        opens_write_epoch(usages_of(t, id)[k].1.access_type) == write,
{
    let i = choose|i: int| #[trigger] touched_at(t, i, p, id, write);
    assert(at.contains(i));
    let k = choose|k: int| 0 <= k < at.len() && at[k] == i;
    assert(t[at[k]].write == write);
    k
}

/// The last touch by the pass of touch `x`.
proof fn lemma_last_of_pass(list: Seq<(usize, AccessType)>, x: int, p: int) -> (i: int)
    requires
        0 <= x < list.len(),
        list[x].0 == p,
        passes_together(list),
    ensures
        x <= i < list.len(),
        list[i].0 == p,
        forall|k: int| i < k < list.len() ==> (#[trigger] list[k]).0 != p,
    decreases list.len() - x,
{
    if exists|k: int| x < k < list.len() && (#[trigger] list[k]).0 == p {
        let k = choose|k: int| x < k < list.len() && (#[trigger] list[k]).0 == p;
        lemma_last_of_pass(list, k, p)
    } else {
        x
    }
}

// ---------------------------------------------------------------------------
// Culling
// ---------------------------------------------------------------------------

proof fn lemma_front_kept<T>(list: Seq<T>, keep: spec_fn(int) -> bool, k: nat, n: nat)
    requires
        k <= n <= list.len(),
        forall|p: int| 0 <= p < k ==> #[trigger] keep(p),
    ensures
        kept(list, keep, n).len() >= k,
        kept(list, keep, n).take(k as int) == list.take(k as int),
    decreases n,
{
    if n == k {
        lemma_all_kept(list, keep, n);
        assert(list.take(n as int).take(k as int) =~= list.take(k as int));
    } else {
        lemma_front_kept(list, keep, k, (n - 1) as nat);
        let rest = kept(list, keep, (n - 1) as nat);
        assert(kept(list, keep, n).take(k as int) =~= rest.take(k as int));
    }
}

/// Culling never touches the passes that the graph made for itself: they stay in front.
pub proof fn law_internal_passes_survive(
    passes: Seq<AnyRenderPass>,
    marked: Set<u32>,
    temporal: Set<u32>,
    raw_producers: Seq<Vec<usize>>,
    internal_count: int,
)
    requires
        0 <= internal_count <= passes.len(),
    ensures
        ({
            let needed = needed_passes(passes, marked, temporal, raw_producers, internal_count);
            needed.len() >= internal_count && needed.take(internal_count) == passes.take(
                internal_count,
            )
        }),
{
    let results = results_of(passes, marked);
    let roots = roots_of(write_lists(passes), results, temporal, internal_count);
    let keep = |p: int| is_live(raw_producers, roots, p);
    assert forall|p: int| 0 <= p < internal_count implies #[trigger] keep(p) by {
        assert(roots(p));
        lemma_root_is_live(raw_producers, roots, p);
    }
    lemma_front_kept(passes, keep, internal_count as nat, passes.len());
}

pub proof fn lemma_kept_contains<T>(list: Seq<T>, keep: spec_fn(int) -> bool, n: nat, p: int)
    requires
        0 <= p < n <= list.len(),
        keep(p),
    ensures
        kept(list, keep, n).contains(list[p]),
    decreases n,
{
    let out = kept(list, keep, n);
    let rest = kept(list, keep, (n - 1) as nat);
    if p < n - 1 {
        lemma_kept_contains(list, keep, (n - 1) as nat, p);
        let k = choose|k: int| 0 <= k < rest.len() && rest[k] == list[p];
        assert(out[k] == list[p]);
    } else {
        assert(out[rest.len() as int] == list[p]);
    }
}

/// Whatever writes a declared result, or a temporal copy, survives culling.
pub proof fn law_writers_of_results_survive(
    passes: Seq<AnyRenderPass>,
    marked: Set<u32>,
    temporal: Set<u32>,
    raw_producers: Seq<Vec<usize>>,
    internal_count: int,
    p: int,
    id: u32,
)
    requires
        0 <= p < passes.len(),
        names(passes[p].data().write@, id),
        results_of(passes, marked).contains(id) || temporal.contains(id),
    ensures
        needed_passes(passes, marked, temporal, raw_producers, internal_count).contains(passes[p]),
{
    let results = results_of(passes, marked);
    let roots = roots_of(write_lists(passes), results, temporal, internal_count);
    let keep = |q: int| is_live(raw_producers, roots, q);
    let writes = passes[p].data().write@;
    let i = choose|i: int| 0 <= i < writes.len() && (#[trigger] writes[i]).id == id;
    assert(writes_any(writes, results) || writes_any(writes, temporal)) by {
        if results.contains(id) {
            assert(results.contains(writes[i].id));
        } else {
            assert(temporal.contains(writes[i].id));
        }
    }
    assert(write_lists(passes)[p]@ == writes);
    assert(roots(p));
    lemma_root_is_live(raw_producers, roots, p);
    lemma_kept_contains(passes, keep, passes.len(), p);
}

/// Whatever wrote what a needed pass reads is needed too, and survives culling.
pub proof fn law_what_feeds_a_needed_pass_survives(
    passes: Seq<AnyRenderPass>,
    marked: Set<u32>,
    temporal: Set<u32>,
    raw_producers: Seq<Vec<usize>>,
    internal_count: int,
    p: int,
    q: int,
)
    requires
        0 <= p < passes.len(),
        produces_for(raw_producers, p, q),
        is_live(
            raw_producers,
            roots_of(write_lists(passes), results_of(passes, marked), temporal, internal_count),
            q,
        ),
    ensures
        is_live(
            raw_producers,
            roots_of(write_lists(passes), results_of(passes, marked), temporal, internal_count),
            p,
        ),
        needed_passes(passes, marked, temporal, raw_producers, internal_count).contains(passes[p]),
{
    let results = results_of(passes, marked);
    let roots = roots_of(write_lists(passes), results, temporal, internal_count);
    let keep = |q: int| is_live(raw_producers, roots, q);
    lemma_producer_is_live(raw_producers, roots, p, q);
    assert(keep(p));
    lemma_kept_contains(passes, keep, passes.len(), p);
}

proof fn lemma_last_writer(t: Seq<Touch>, refs: Seq<ResourceRef>, pass: usize, id: u32)
    requires
        names(refs, id),
    ensures
        last_writer(t + listed_touches(refs, pass, true), id) == Some(pass),
    decreases refs.len(),
{
    let all = t + listed_touches(refs, pass, true);
    let few = refs.drop_last();
    assert(all.drop_last() =~= t + listed_touches(few, pass, true));
    if refs.last().id != id {
        let i = choose|i: int| 0 <= i < refs.len() && (#[trigger] refs[i]).id == id;
        assert(few[i].id == id);
        lemma_last_writer(t, few, pass, id);
    }
}

proof fn lemma_reads_write_nothing(t: Seq<Touch>, refs: Seq<ResourceRef>, pass: usize, id: u32)
    ensures
        last_writer(t + listed_touches(refs, pass, false), id) == last_writer(t, id),
    decreases refs.len(),
{
    let all = t + listed_touches(refs, pass, false);
    if refs.len() == 0 {
        assert(all =~= t);
    } else {
        assert(all.drop_last() =~= t + listed_touches(refs.drop_last(), pass, false));
        lemma_reads_write_nothing(t, refs.drop_last(), pass, id);
    }
}

pub proof fn lemma_producer_listed(t: Seq<Touch>, p: int, k: int, w: usize)
    requires
        0 <= k < t.len(),
        t[k].pass == p,
        !t[k].write,
        last_writer(t.take(k), t[k].id) == Some(w),
        w != p,
    ensures
        producers_of(t, p).contains(w),
    decreases t.len(),
{
    let rest = t.drop_last();
    let few = producers_of(rest, p);
    if k == t.len() - 1 {
        assert(rest =~= t.take(k));
        if !few.contains(w) {
            assert(few.push(w)[few.len() as int] == w);
        }
    } else {
        assert(rest.take(k) =~= t.take(k));
        lemma_producer_listed(rest, p, k, w);
        let i = choose|i: int| 0 <= i < few.len() && few[i] == w;
        assert(producers_of(t, p)[i] == w);
    }
}

proof fn lemma_touches_prefix(passes: Seq<PassDecl>, m: nat, n: nat)
    requires
        m <= n,
    ensures
        touches(passes, m).len() <= touches(passes, n).len(),
        touches(passes, n).take(touches(passes, m).len() as int) == touches(passes, m),
    decreases n,
{
    let t = touches(passes, n);
    if m == n {
        assert(t.take(t.len() as int) =~= t);
    } else {
        lemma_touches_prefix(passes, m, (n - 1) as nat);
        let rest = touches(passes, (n - 1) as nat);
        let len = touches(passes, m).len() as int;
        assert(t.take(len) =~= rest.take(len));
    }
}

/// A pass that reads what the pass right before it wrote reads from that pass.
pub proof fn law_a_reader_has_its_writer(passes: Seq<PassDecl>, p: int, id: u32)
    requires
        passes.len() <= usize::MAX,
        0 <= p < passes.len() - 1,
        names(passes[p].1@, id),
        names(passes[p + 1].0@, id),
    ensures
        producers_of(touches(passes, passes.len()), p + 1).contains(p as usize),
{
    let t = touches(passes, passes.len());
    let before = touches(passes, (p + 1) as nat);
    let next = touches(passes, (p + 2) as nat);
    let reads = passes[p + 1].0@;
    let i = choose|i: int| 0 <= i < reads.len() && (#[trigger] reads[i]).id == id;
    let k = before.len() + i;
    lemma_touches_prefix(passes, (p + 2) as nat, passes.len());
    let q = (p + 1) as usize;
    assert(next.take(k) =~= before + listed_touches(reads.take(i), q, false));
    assert(t.take(k) =~= next.take(k)) by {
        assert(t.take(next.len() as int).take(k) =~= t.take(k));
    }
    assert(t[k] == next[k]) by {
        assert(t.take(next.len() as int)[k] == next[k]);
    }
    lemma_last_writer(
        touches(passes, p as nat) + listed_touches(passes[p].0@, p as usize, false),
        passes[p].1@,
        p as usize,
        id,
    );
    lemma_reads_write_nothing(before, reads.take(i), q, id);
    lemma_producer_listed(t, p + 1, k, p as usize);
}

// ---------------------------------------------------------------------------
// Across frames
// ---------------------------------------------------------------------------

proof fn lemma_written_back_elsewhere(
    views: Seq<Seq<ImportState>>,
    registered: Seq<(usize, usize, u32)>,
    ends: Map<u32, ResourceEndState>,
    n: nat,
    t: int,
    c: int,
)
    requires
        n <= registered.len(),
        0 <= t < views.len(),
        0 <= c < views[t].len(),
        forall|i: int|
            0 <= i < registered.len() ==> (#[trigger] registered[i]).0 < views.len()
                && registered[i].1 < views[registered[i].0 as int].len(),
    ensures
        written_back(views, registered, ends, n).len() == views.len(),
        forall|u: int|
            0 <= u < views.len() ==> (#[trigger] written_back(views, registered, ends, n)[u]).len()
                == views[u].len(),
        written_back(views, registered, ends, n)[t][c].object == views[t][c].object,
    decreases n,
{
    if n > 0 {
        lemma_written_back_elsewhere(views, registered, ends, (n - 1) as nat, t, c);
        assert(registered[n - 1].0 < views.len());
    }
}

/// What a temporal copy is left in by one frame is what it carries into the next: the
/// end state of its last registration is written back into its import.
pub proof fn law_temporal_copies_carry_their_end_state(
    views: Seq<Seq<ImportState>>,
    registered: Seq<(usize, usize, u32)>,
    ends: Map<u32, ResourceEndState>,
    n: nat,
    i: int,
)
    requires
        0 <= i < n <= registered.len(),
        forall|k: int|
            0 <= k < registered.len() ==> (#[trigger] registered[k]).0 < views.len()
                && registered[k].1 < views[registered[k].0 as int].len(),
        ends.contains_key(registered[i].2),
        forall|k: int|
            i < k < n ==> !((#[trigger] registered[k]).0 == registered[i].0 && registered[k].1
                == registered[i].1),
        views[registered[i].0 as int][registered[i].1 as int].object !is Sampler,
    ensures
        written_back(views, registered, ends, n)[registered[i].0 as int][registered[i].1 as int].accesses
            == ends[registered[i].2].end_accesses@,
    decreases n,
{
    let (t, c, id) = registered[i];
    lemma_written_back_elsewhere(views, registered, ends, (n - 1) as nat, t as int, c as int);
    if i < n - 1 {
        law_temporal_copies_carry_their_end_state(views, registered, ends, (n - 1) as nat, i);
        let (u, d, other) = registered[n - 1];
        assert(!(u == t && d == c));
        let rest = written_back(views, registered, ends, (n - 1) as nat);
        assert(rest[u as int].len() == views[u as int].len());
    }
}

} // verus!
