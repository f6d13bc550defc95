//! Which passes of a frame run: what each needs, what is dropped, and what the graph adds
//! in front.

use vk_sync_fork::AccessType;
use vstd::prelude::*;

use crate::render_graph::access::{opens_write_epoch, ResourceRef};
use crate::render_graph::analysis::{last_writer, producers_match, producers_of, touches, Touch};
use crate::render_graph::analysis_laws::{lemma_last_write, lemma_touches_in_order};
use crate::render_graph::compile::{declared, survivors};
use crate::render_graph::frame_barrier_laws::{
    declared_well, lemma_at, lemma_from, list_of, lists_access, makes, touch_index,
};
use crate::render_graph::frame_laws::{
    law_internal_passes_survive, lemma_kept_contains, lemma_producer_listed, names,
};
use crate::render_graph::graph::{AnyRenderPass, RenderGraph};
use crate::render_graph::internal_passes::{
    all_carried, carried, carried_in, has_contents, ids_of, imports_contents, is_imports_pass,
    is_prologue_pass, kept, lemma_all_kept, needed_passes, registered_ids, results_of,
    write_lists, written_by_outputs,
};
use crate::render_graph::liveness::{
    is_live, is_root, law_live_set_is_least, lemma_producer_is_live, lemma_root_is_live,
    produces_for, roots_of, writes_any,
};
use crate::render_graph::pass_builder::CopyEnd;
use crate::render_graph::resource::GraphResourceInfo;

verus! {

// ---------------------------------------------------------------------------
// Who feeds whom
// ---------------------------------------------------------------------------

/// Whether a pass reads what an earlier one wrote: nobody in between wrote it again.
pub open spec fn feeds(passes: Seq<AnyRenderPass>, p: int, q: int, id: u32) -> bool {
    &&& 0 <= p < q < passes.len()
    &&& names(passes[p].data().write@, id)
    &&& names(passes[q].data().read@, id)
    &&& forall|r: int| p < r < q ==> !names(#[trigger] passes[r].data().write@, id)
}

proof fn lemma_feeding_is_listed(passes: Seq<AnyRenderPass>, p: int, q: int, id: u32)
    requires
        passes.len() <= usize::MAX,
        feeds(passes, p, q, id),
    ensures
        producers_of(touches(declared(passes), passes.len()), q).contains(p as usize),
{
    let ds = declared(passes);
    let n = passes.len();
    let t = touches(ds, n);
    lemma_touches_in_order(ds, n);
    let reads = passes[q].data().read@;
    let writes = passes[p].data().write@;
    let i = choose|i: int| 0 <= i < reads.len() && (#[trigger] reads[i]).id == id;
    let j = choose|j: int| 0 <= j < writes.len() && (#[trigger] writes[j]).id == id;
    lemma_at(ds, n, q, false, i);
    lemma_at(ds, n, p, true, j);
    let k = touch_index(ds, q, false, i);
    let l = touch_index(ds, p, true, j);
    assert(l < k) by {
        if k <= l {
            assert(t[k].pass <= t[l].pass);
        }
    }
    let s = t.take(k);
    let last = lemma_last_write(s, id);
    assert(s[l].id == id && s[l].write);
    assert(last_writer(s, id) is Some);
    assert(l <= last) by {
        if last < l {
            assert(!(s[l].id == id && s[l].write));
        }
    }
    let w = t[last].pass as int;
    assert(s[last] == t[last]);
    assert(t[l].pass <= t[last].pass && t[last].pass <= t[k].pass);
    let m = lemma_from(ds, n, last);
    assert(names(passes[w].data().write@, id)) by {
        assert(passes[w].data().write@[m].id == id);
    }
    assert(w != q) by {
        if w == q {
            assert(last == touch_index(ds, q, true, m));
        }
    }
    lemma_producer_listed(t, q, k, p as usize);
}

proof fn lemma_producer_touch(t: Seq<Touch>, q: int, w: usize) -> (k: int)
    requires
        producers_of(t, q).contains(w),
    ensures
        0 <= k < t.len(),
        t[k].pass == q,
        !t[k].write,
        last_writer(t.take(k), t[k].id) == Some(w),
        w != q,
    decreases t.len(),
{
    let rest = t.drop_last();
    let few = producers_of(rest, q);
    if few.contains(w) {
        let k = lemma_producer_touch(rest, q, w);
        assert(rest.take(k) =~= t.take(k));
        k
    } else {
        let k = t.len() - 1;
        assert(rest =~= t.take(k));
        let i = choose|i: int|
            0 <= i < producers_of(t, q).len() && producers_of(t, q)[i] == w;
        assert(i == few.len()) by {
            if i < few.len() {
                assert(few[i] == w);
            }
        }
        k
    }
}

proof fn lemma_listed_is_feeding(passes: Seq<AnyRenderPass>, w: usize, q: int) -> (id: u32)
    requires
        passes.len() <= usize::MAX,
        producers_of(touches(declared(passes), passes.len()), q).contains(w),
    ensures
        feeds(passes, w as int, q, id),
{
    let ds = declared(passes);
    let n = passes.len();
    let t = touches(ds, n);
    lemma_touches_in_order(ds, n);
    let k = lemma_producer_touch(t, q, w);
    let id = t[k].id;
    let s = t.take(k);
    let last = lemma_last_write(s, id);
    assert(s[last] == t[last]);
    assert(t[last].pass <= t[k].pass);
    let i = lemma_from(ds, n, k);
    let j = lemma_from(ds, n, last);
    assert(passes[q].data().read@[i].id == id);
    assert(passes[w as int].data().write@[j].id == id);
    assert(names(passes[q].data().read@, id));
    assert(names(passes[w as int].data().write@, id));
    assert forall|r: int| w < r < q implies !names(#[trigger] passes[r].data().write@, id) by {
        let writes = passes[r].data().write@;
        if names(writes, id) {
            let m = choose|m: int| 0 <= m < writes.len() && (#[trigger] writes[m]).id == id;
            lemma_at(ds, n, r, true, m);
            let x = touch_index(ds, r, true, m);
            assert(t[x].pass == r && t[x].id == id && t[x].write);
            if x <= last {
                assert(t[x].pass <= t[last].pass);
            }
            if k <= x {
                assert(t[k].pass <= t[x].pass);
            }
            assert(s[x] == t[x]);
        }
    }
    id
}

// ---------------------------------------------------------------------------
// Results
// ---------------------------------------------------------------------------

/// Whether a resource is what a frame is made for: it was declared a result, it lives across
/// frames, or a pass whose writes are results writes it.
pub open spec fn is_result(graph: RenderGraph, all: Seq<AnyRenderPass>, id: u32) -> bool {
    ||| graph.output_resources@.contains(id)
    ||| exists|k: int|
        0 <= k < graph.registered_temporal@.len() && (#[trigger] graph.registered_temporal@[k]).2
            == id
    ||| exists|o: int|
        0 <= o < all.len() && (#[trigger] all[o]).data().output && names(all[o].data().write@, id)
}

/// Whether a pass is needed for itself: the graph made it, or it writes a result.
pub open spec fn needed_itself(graph: RenderGraph, all: Seq<AnyRenderPass>, p: int) -> bool {
    &&& 0 <= p < all.len()
    &&& p < all.len() - graph.passes@.len() || exists|id: u32| #[trigger]
        names(all[p].data().write@, id) && is_result(graph, all, id)
}

proof fn lemma_ids(refs: Seq<ResourceRef>, n: nat, id: u32)
    requires
        n <= refs.len(),
    ensures
        ids_of(refs, n).contains(id) <==> exists|k: int|
            0 <= k < n && (#[trigger] refs[k]).id == id,
    decreases n,
{
    if n > 0 {
        lemma_ids(refs, (n - 1) as nat, id);
        if ids_of(refs, n).contains(id) {
            if refs[n - 1].id != id {
                let k = choose|k: int| 0 <= k < n - 1 && (#[trigger] refs[k]).id == id;
                assert(refs[k].id == id);
            }
        }
    }
}

proof fn lemma_written(passes: Seq<AnyRenderPass>, n: nat, id: u32)
    requires
        n <= passes.len(),
    ensures
        written_by_outputs(passes, n).contains(id) <==> exists|o: int|
            0 <= o < n && (#[trigger] passes[o]).data().output && names(
                passes[o].data().write@,
                id,
            ),
    decreases n,
{
    if n > 0 {
        let m = n - 1;
        lemma_written(passes, m as nat, id);
        let data = passes[m].data();
        lemma_ids(data.write@, data.write@.len(), id);
        assert(names(data.write@, id) <==> ids_of(data.write@, data.write@.len()).contains(id)) by {
            if names(data.write@, id) {
                let k = choose|k: int|
                    0 <= k < data.write@.len() && (#[trigger] data.write@[k]).id == id;
                assert(data.write@[k].id == id);
            }
        }
        if written_by_outputs(passes, n).contains(id) {
            if !(data.output && names(data.write@, id)) {
                let o = choose|o: int|
                    0 <= o < m && (#[trigger] passes[o]).data().output && names(
                        passes[o].data().write@,
                        id,
                    );
                assert(passes[o].data().output);
            } else {
                assert(passes[m].data().output);
            }
        }
    }
}

proof fn lemma_registered(registered: Seq<(usize, usize, u32)>, n: nat, id: u32)
    requires
        n <= registered.len(),
    ensures
        registered_ids(registered, n).contains(id) <==> exists|k: int|
            0 <= k < n && (#[trigger] registered[k]).2 == id,
    decreases n,
{
    if n > 0 {
        lemma_registered(registered, (n - 1) as nat, id);
        if registered_ids(registered, n).contains(id) {
            if registered[n - 1].2 != id {
                let k = choose|k: int| 0 <= k < n - 1 && (#[trigger] registered[k]).2 == id;
                assert(registered[k].2 == id);
            }
        }
    }
}

proof fn lemma_results(graph: RenderGraph, all: Seq<AnyRenderPass>, id: u32)
    ensures
        is_result(graph, all, id) <==> results_of(all, graph.output_resources@).contains(id)
            || graph.temporal_ids().contains(id),
{
    lemma_written(all, all.len(), id);
    lemma_registered(graph.registered_temporal@, graph.registered_temporal@.len(), id);
}

proof fn lemma_roots(graph: RenderGraph, all: Seq<AnyRenderPass>, p: int)
    requires
        all.len() == graph.internal_count() + graph.passes@.len(),
    ensures
        roots_of(
            write_lists(all),
            results_of(all, graph.output_resources@),
            graph.temporal_ids(),
            graph.internal_count(),
        )(p) <==> needed_itself(graph, all, p),
{
    let results = results_of(all, graph.output_resources@);
    let temporal = graph.temporal_ids();
    if 0 <= p < all.len() {
        let writes = all[p].data().write@;
        assert(write_lists(all)[p]@ == writes);
        if writes_any(writes, results) {
            let i = choose|i: int|
                0 <= i < writes.len() && results.contains((#[trigger] writes[i]).id);
            lemma_results(graph, all, writes[i].id);
            assert(names(writes, writes[i].id));
        }
        if writes_any(writes, temporal) {
            let i = choose|i: int|
                0 <= i < writes.len() && temporal.contains((#[trigger] writes[i]).id);
            lemma_results(graph, all, writes[i].id);
            assert(names(writes, writes[i].id));
        }
        if exists|id: u32| #[trigger] names(writes, id) && is_result(graph, all, id) {
            let id = choose|id: u32| #[trigger] names(writes, id) && is_result(graph, all, id);
            lemma_results(graph, all, id);
            let i = choose|i: int| 0 <= i < writes.len() && (#[trigger] writes[i]).id == id;
            if results.contains(id) {
                assert(results.contains(writes[i].id));
                assert(writes_any(writes, results));
            } else {
                assert(temporal.contains(writes[i].id));
                assert(writes_any(writes, temporal));
            }
        }
    }
}

// ---------------------------------------------------------------------------
// What survives
// ---------------------------------------------------------------------------

proof fn lemma_kept_places(
    list: Seq<AnyRenderPass>,
    keep: spec_fn(int) -> bool,
    n: nat,
) -> (at: Seq<int>)
    requires
        n <= list.len(),
    ensures
        at.len() == kept(list, keep, n).len(),
        forall|i: int|
            0 <= i < at.len() ==> 0 <= #[trigger] at[i] < n && keep(at[i]) && kept(
                list,
                keep,
                n,
            )[i] == list[at[i]],
        forall|i: int, j: int| #![trigger at[i], at[j]] 0 <= i < j < at.len() ==> at[i] < at[j],
        forall|p: int| 0 <= p < n && #[trigger] keep(p) ==> at.contains(p),
    decreases n,
{
    if n == 0 {
        Seq::empty()
    } else {
        let few = lemma_kept_places(list, keep, (n - 1) as nat);
        if keep(n - 1) {
            let at = few.push(n - 1);
            assert forall|p: int| 0 <= p < n && #[trigger] keep(p) implies at.contains(p) by {
                if p < n - 1 {
                    let i = choose|i: int| 0 <= i < few.len() && few[i] == p;
                    assert(at[i] == p);
                } else {
                    assert(at[few.len() as int] == p);
                }
            }
            at
        } else {
            few
        }
    }
}

/// Whether a choice of passes holds all that is needed for itself, and with each pass those
/// that feed it.
pub open spec fn is_complete(
    graph: RenderGraph,
    all: Seq<AnyRenderPass>,
    chosen: spec_fn(int) -> bool,
) -> bool {
    &&& forall|p: int| #[trigger] needed_itself(graph, all, p) ==> chosen(p)
    &&& forall|p: int, q: int, id: u32| #[trigger]
        feeds(all, p, q, id) && chosen(q) ==> chosen(p)
}

/// A frame runs what its results need and nothing else. Of the passes that were declared,
/// behind those that the graph makes for itself, those run that write a result and those
/// that feed one that runs, in the order of their declaration; they are no more than any
/// choice of passes must hold that is complete. A frame without results runs all.
pub proof fn law_what_results_need_runs(
    graph: RenderGraph,
    passes: Seq<AnyRenderPass>,
    wanted: spec_fn(int) -> bool,
) -> (r: (Seq<AnyRenderPass>, spec_fn(int) -> bool, Seq<int>))
    requires
        graph.passes@.len() + 2 <= usize::MAX,
        survivors(graph, passes),
    ensures
        ({
            let (all, runs, at) = r;
            let added = all.len() - graph.passes@.len();
            &&& 0 <= added <= 2
            &&& forall|i: int|
                0 <= i < graph.passes@.len() ==> #[trigger] graph.passes@[i] == all[added + i]
            &&& is_complete(graph, all, runs)
            &&& at.len() == passes.len()
            &&& forall|i: int|
                0 <= i < at.len() ==> 0 <= #[trigger] at[i] < all.len() && runs(at[i]) && passes[i]
                    == all[at[i]]
            &&& forall|i: int, j: int| #![trigger at[i], at[j]]
                0 <= i < j < at.len() ==> at[i] < at[j]
            &&& forall|p: int| 0 <= p < all.len() && #[trigger] runs(p) ==> at.contains(p)
            &&& if exists|id: u32| is_result(graph, all, id) {
                is_complete(graph, all, wanted) ==> forall|p: int| #[trigger] runs(p) ==> wanted(p)
            } else {
                passes == all
            }
        }),
{
    let (all, producers) = choose|all: Seq<AnyRenderPass>, producers: Seq<Vec<usize>>|
        {
            &&& #[trigger] graph.with_internal(all)
            &&& #[trigger] producers_match(
                producers,
                touches(declared(all), all.len()),
                all.len() as int,
            )
            &&& passes == needed_passes(
                all,
                graph.output_resources@,
                graph.temporal_ids(),
                producers,
                graph.internal_count(),
            )
        };
    let added = graph.internal_count();
    assert forall|i: int| 0 <= i < graph.passes@.len() implies #[trigger] graph.passes@[i]
        == all[added + i] by {
        assert(all.skip(added)[i] == all[added + i]);
    }
    let results = results_of(all, graph.output_resources@);
    let temporal = graph.temporal_ids();
    let t = touches(declared(all), all.len());
    let roots = roots_of(write_lists(all), results, temporal, added);
    if results == Set::<u32>::empty() && temporal == Set::<u32>::empty() {
        let runs = |p: int| true;
        assert forall|id: u32| !#[trigger] is_result(graph, all, id) by {
            lemma_results(graph, all, id);
        }
        let at = Seq::new(all.len(), |i: int| i);
        assert forall|p: int| 0 <= p < all.len() && #[trigger] runs(p) implies at.contains(p) by {
            assert(at[p] == p);
        }
        (all, runs, at)
    } else {
        let runs = |p: int| is_live(producers, roots, p);
        let at = lemma_kept_places(all, runs, all.len());
        assert(exists|id: u32| is_result(graph, all, id)) by {
            if results != Set::<u32>::empty() {
                if forall|id: u32| !results.contains(id) {
                    assert(results =~= Set::<u32>::empty());
                }
                let id = choose|id: u32| results.contains(id);
                lemma_results(graph, all, id);
                assert(is_result(graph, all, id));
            } else {
                if forall|id: u32| !temporal.contains(id) {
                    assert(temporal =~= Set::<u32>::empty());
                }
                let id = choose|id: u32| temporal.contains(id);
                lemma_results(graph, all, id);
                assert(is_result(graph, all, id));
            }
        }
        assert forall|p: int| #[trigger] needed_itself(graph, all, p) implies runs(p) by {
            lemma_roots(graph, all, p);
            lemma_root_is_live(producers, roots, p);
        }
        assert forall|p: int, q: int, id: u32| #[trigger] feeds(all, p, q, id) && runs(
            q,
        ) implies runs(p) by {
            lemma_feeding_is_listed(all, p, q, id);
            assert(producers[q]@ == producers_of(t, q));
            assert(produces_for(producers, p, q));
            lemma_producer_is_live(producers, roots, p, q);
        }
        if is_complete(graph, all, wanted) {
            assert forall|p: int| #[trigger] runs(p) implies wanted(p) by {
                assert forall|q: int| #[trigger] roots(q) implies wanted(q) by {
                    lemma_roots(graph, all, q);
                }
                assert forall|a: int, b: int| #[trigger]
                    produces_for(producers, a, b) && wanted(b) implies wanted(a) by {
                    assert(producers[b]@ == producers_of(t, b));
                    let id = lemma_listed_is_feeding(all, a as usize, b);
                    assert(feeds(all, a, b, id));
                }
                law_live_set_is_least(producers, roots, wanted, p);
            }
        }
        (all, runs, at)
    }
}

// ---------------------------------------------------------------------------
// What the graph adds
// ---------------------------------------------------------------------------

proof fn lemma_carried(id: u32, accesses: Seq<AccessType>, n: nat, as_write: bool)
    requires
        n <= accesses.len(),
    ensures
        forall|k: int|
            0 <= k < carried(id, accesses, n, as_write).len() ==> {
                let r = #[trigger] carried(id, accesses, n, as_write)[k];
                &&& r.id == id
                &&& accesses.contains(r.access.access_type)
                &&& opens_write_epoch(r.access.access_type) == as_write
            },
        forall|i: int|
            0 <= i < n && opens_write_epoch(#[trigger] accesses[i]) == as_write ==> lists_access(
                carried(id, accesses, n, as_write),
                id,
                accesses[i],
            ),
    decreases n,
{
    if n > 0 {
        lemma_carried(id, accesses, (n - 1) as nat, as_write);
        let few = carried(id, accesses, (n - 1) as nat, as_write);
        let all = carried(id, accesses, n, as_write);
        assert forall|i: int|
            0 <= i < n && opens_write_epoch(#[trigger] accesses[i])
                == as_write implies lists_access(all, id, accesses[i]) by {
            if i < n - 1 {
                let k = choose|k: int|
                    0 <= k < few.len() && (#[trigger] few[k]).id == id
                        && few[k].access.access_type == accesses[i];
                assert(all[k] == few[k]);
            } else {
                assert(all[few.len() as int].id == id);
            }
        }
    }
}

proof fn lemma_all_carried(infos: Seq<GraphResourceInfo>, n: nat, as_write: bool)
    requires
        n <= infos.len() <= u32::MAX,
    ensures
        forall|k: int|
            0 <= k < all_carried(infos, n, as_write).len() ==> {
                let r = #[trigger] all_carried(infos, n, as_write)[k];
                &&& r.id < n
                &&& carried_in(infos[r.id as int]).contains(r.access.access_type)
                &&& opens_write_epoch(r.access.access_type) == as_write
            },
        forall|id: u32, i: int| #![trigger carried_in(infos[id as int])[i]]
            id < n && 0 <= i < carried_in(infos[id as int]).len() && opens_write_epoch(
                carried_in(infos[id as int])[i],
            ) == as_write ==> lists_access(
                all_carried(infos, n, as_write),
                id,
                carried_in(infos[id as int])[i],
            ),
    decreases n,
{
    if n > 0 {
        let m = (n - 1) as nat;
        lemma_all_carried(infos, m, as_write);
        let few = all_carried(infos, m, as_write);
        let own = carried_in(infos[m as int]);
        lemma_carried(m as u32, own, own.len(), as_write);
        let more = carried(m as u32, own, own.len(), as_write);
        let all = all_carried(infos, n, as_write);
        assert forall|k: int| 0 <= k < all.len() implies {
            let r = #[trigger] all[k];
            &&& r.id < n
            &&& carried_in(infos[r.id as int]).contains(r.access.access_type)
            &&& opens_write_epoch(r.access.access_type) == as_write
        } by {
            if k < few.len() {
                assert(all[k] == few[k]);
            } else {
                assert(all[k] == more[k - few.len()]);
            }
        }
        assert forall|id: u32, i: int| #![trigger carried_in(infos[id as int])[i]]
            id < n && 0 <= i < carried_in(infos[id as int]).len() && opens_write_epoch(
                carried_in(infos[id as int])[i],
            ) == as_write implies lists_access(all, id, carried_in(infos[id as int])[i]) by {
            let access = carried_in(infos[id as int])[i];
            if id < m {
                let k = choose|k: int|
                    0 <= k < few.len() && (#[trigger] few[k]).id == id
                        && few[k].access.access_type == access;
                assert(all[k] == few[k]);
            } else {
                let k = choose|k: int|
                    0 <= k < more.len() && (#[trigger] more[k]).id == id
                        && more[k].access.access_type == access;
                assert(all[few.len() + k] == more[k]);
            }
        }
    }
}

/// Whether a frame is given this resource in this access.
pub open spec fn is_given(infos: Seq<GraphResourceInfo>, id: u32, access: AccessType) -> bool {
    id < infos.len() && (infos[id as int] matches GraphResourceInfo::Imported(import)
        && import@.accesses.contains(access))
}

/// What a frame is given comes before all else in the accesses that it was left in: the
/// first pass makes exactly those, each as what it is, a read or a write. So the first pass
/// that uses a resource is ordered behind the frame before.
pub proof fn law_imports_come_first(
    graph: RenderGraph,
    passes: Seq<AnyRenderPass>,
    given: int,
    id: u32,
    access: AccessType,
)
    requires
        graph.passes@.len() + 2 <= usize::MAX,
        graph.virtual_resources@.len() <= u32::MAX,
        survivors(graph, passes),
        0 <= given < graph.virtual_resources@.len(),
        graph.virtual_resources@[given] matches GraphResourceInfo::Imported(import)
            && import !is Sampler,
    ensures
        passes.len() > 0,
        passes[0] is Internal,
        passes[0].data().render is None,
        makes(passes, 0, id, access) <==> is_given(graph.virtual_resources@, id, access),
        declared_well(passes[0]),
{
    let infos = graph.virtual_resources@;
    assert(has_contents(infos[given]));
    assert(imports_contents(infos));
    let (all, producers) = choose|all: Seq<AnyRenderPass>, producers: Seq<Vec<usize>>|
        {
            &&& #[trigger] graph.with_internal(all)
            &&& #[trigger] producers_match(
                producers,
                touches(declared(all), all.len()),
                all.len() as int,
            )
            &&& passes == needed_passes(
                all,
                graph.output_resources@,
                graph.temporal_ids(),
                producers,
                graph.internal_count(),
            )
        };
    law_internal_passes_survive(
        all,
        graph.output_resources@,
        graph.temporal_ids(),
        producers,
        graph.internal_count(),
    );
    assert(passes.take(graph.internal_count())[0] == all.take(graph.internal_count())[0]);
    assert(passes[0] == all[0]);
    lemma_all_carried(infos, infos.len(), true);
    lemma_all_carried(infos, infos.len(), false);
    let reads = passes[0].data().read@;
    let writes = passes[0].data().write@;
    assert(reads == all_carried(infos, infos.len(), false));
    assert(writes == all_carried(infos, infos.len(), true));
    if makes(passes, 0, id, access) {
        if lists_access(reads, id, access) {
            let k = choose|k: int|
                0 <= k < reads.len() && (#[trigger] reads[k]).id == id
                    && reads[k].access.access_type == access;
            assert(carried_in(infos[id as int]).contains(access));
        } else {
            let k = choose|k: int|
                0 <= k < writes.len() && (#[trigger] writes[k]).id == id
                    && writes[k].access.access_type == access;
            assert(carried_in(infos[id as int]).contains(access));
        }
    }
    if is_given(infos, id, access) {
        let own = carried_in(infos[id as int]);
        let i = choose|i: int| 0 <= i < own.len() && own[i] == access;
        assert(own[i] == access);
    }
}

/// Copies from staging memory run in front of every declared pass, in the order in which
/// they were handed over, each to its buffer and of its bytes; that the buffers are written
/// is declared.
pub proof fn law_staged_copies_come_before_declared_passes(
    graph: RenderGraph,
    passes: Seq<AnyRenderPass>,
    i: int,
) -> (p: int)
    requires
        graph.passes@.len() + 2 <= usize::MAX,
        survivors(graph, passes),
        0 <= i < graph.prologue_copies@.len(),
    ensures
        0 <= p < passes.len(),
        p <= 1,
        p == 1 ==> passes[0] is Internal,
        passes[p] matches AnyRenderPass::Transfer(transfer) && {
            let (src, dst, region) = graph.prologue_copies@[i];
            &&& transfer.copies@.len() == graph.prologue_copies@.len()
            &&& transfer.copies@[i] == (CopyEnd::Raw(src), CopyEnd::Handle(dst.id), region)
            &&& transfer.common.write@.len() == transfer.copies@.len()
            &&& transfer.common.write@[i].id == dst.id
            &&& opens_write_epoch(transfer.common.write@[i].access.access_type)
            &&& transfer.common.read@.len() == 0
        },
{
    let (all, producers) = choose|all: Seq<AnyRenderPass>, producers: Seq<Vec<usize>>|
        {
            &&& #[trigger] graph.with_internal(all)
            &&& #[trigger] producers_match(
                producers,
                touches(declared(all), all.len()),
                all.len() as int,
            )
            &&& passes == needed_passes(
                all,
                graph.output_resources@,
                graph.temporal_ids(),
                producers,
                graph.internal_count(),
            )
        };
    let n = graph.internal_count();
    law_internal_passes_survive(
        all,
        graph.output_resources@,
        graph.temporal_ids(),
        producers,
        n,
    );
    let p = n - 1;
    assert(passes.take(n)[p] == all.take(n)[p]);
    assert(passes.take(n)[0] == all.take(n)[0]);
    assert(opens_write_epoch(AccessType::TransferWrite));
    p
}

} // verus!
