//! What every barrier plan guarantees.
use vk_sync_fork::AccessType;
use vstd::prelude::*;

use crate::render_graph::access::{opens_write_epoch, optimal_layout};
use crate::render_graph::barriers::{
    all_left_in, continues, epochs_of, left_in, predecessor_ids, resource_transitions, seed_of,
    transition_into, transitions_before, union_of, with_touch, Epoch, Transition,
};
use crate::render_graph::predecessors::{has_predecessors, Placements, Usages};
use crate::render_graph::resource::GraphResourceInfo;

verus! {

/// A resource's touches in schedule order.
pub type Touches = Seq<(usize, AccessType)>;

/// Where epoch `e` ends: where the next begins, the last behind the `n`-th touch.
pub open spec fn span_end(starts: Seq<int>, n: int, e: int) -> int {
    if e + 1 < starts.len() {
        starts[e + 1]
    } else {
        n
    }
}

/// Whether epoch `e` is the run of touches from `starts[e]` to its end: it begins and
/// ends with their passes, holds exactly their accesses, and is either one write or
/// reads only, those of an image in one layout.
pub open spec fn is_run(
    list: Touches,
    is_image: bool,
    n: int,
    epochs: Seq<Epoch>,
    starts: Seq<int>,
    e: int,
) -> bool {
    let from = starts[e];
    let to = span_end(starts, n, e);
    &&& 0 <= from < to <= n
    &&& epochs[e].first_pass == list[from].0
    &&& epochs[e].last_pass == list[to - 1].0
    &&& epochs[e].accesses.len() > 0
    &&& forall|i: int|
        from <= i < to ==> epochs[e].accesses.contains((#[trigger] list[i]).1) && epochs[e].is_write
            == opens_write_epoch(list[i].1)
    &&& forall|k: int|
        0 <= k < epochs[e].accesses.len() ==> made_of(
            list,
            from,
            to,
            #[trigger] epochs[e].accesses[k],
        )
    &&& epochs[e].is_write ==> to == from + 1
    &&& is_image ==> forall|k: int|
        0 <= k < epochs[e].accesses.len() ==> optimal_layout(#[trigger] epochs[e].accesses[k])
            == optimal_layout(epochs[e].accesses[0])
}

/// Whether one of the touches in `[from, to)` is this access.
pub open spec fn made_of(list: Touches, from: int, to: int, access: AccessType) -> bool {
    exists|i: int| from <= i < to && (#[trigger] list[i]).1 == access
}

/// Whether the epochs cut the first `n` touches into consecutive runs.
pub open spec fn are_runs(
    list: Touches,
    is_image: bool,
    n: int,
    epochs: Seq<Epoch>,
    starts: Seq<int>,
) -> bool {
    &&& starts.len() == epochs.len()
    &&& n == 0 <==> starts.len() == 0
    &&& n > 0 ==> starts[0] == 0
    &&& forall|e: int|
        0 <= e < epochs.len() ==> #[trigger] is_run(list, is_image, n, epochs, starts, e)
}

/// The epochs of a resource cut its touches into consecutive runs: every access is in
/// exactly one epoch, in schedule order.
pub proof fn law_epochs_are_runs(list: Touches, is_image: bool, n: nat) -> (starts: Seq<int>)
    requires
        n <= list.len(),
    ensures
        are_runs(list, is_image, n as int, epochs_of(list, is_image, n), starts),
    decreases n,
{
    if n == 0 {
        Seq::empty()
    } else {
        let m = (n - 1) as nat;
        let before = law_epochs_are_runs(list, is_image, m);
        let old_epochs = epochs_of(list, is_image, m);
        let epochs = epochs_of(list, is_image, n);
        let pass = list[n - 1].0 as int;
        let access = list[n - 1].1;
        assert(epochs == with_touch(old_epochs, pass, access, is_image));
        if !opens_write_epoch(access) && continues(old_epochs, access, is_image) {
            let starts = before;
            let last = epochs.len() - 1;
            assert forall|e: int| 0 <= e < epochs.len() implies #[trigger] is_run(
                list,
                is_image,
                n as int,
                epochs,
                starts,
                e,
            ) by {
                assert(is_run(list, is_image, m as int, old_epochs, before, e));
                if e < last {
                    assert(epochs[e] == old_epochs[e]);
                    assert(is_run(list, is_image, m as int, old_epochs, before, e + 1));
                } else {
                    lemma_run_extended(list, is_image, m as int, old_epochs, before, epochs, e);
                }
            }
            starts
        } else {
            let starts = before.push(m as int);
            let last = epochs.len() - 1;
            assert(epochs == old_epochs.push(epochs[last]));
            assert forall|e: int| 0 <= e < epochs.len() implies #[trigger] is_run(
                list,
                is_image,
                n as int,
                epochs,
                starts,
                e,
            ) by {
                if e < last {
                    assert(is_run(list, is_image, m as int, old_epochs, before, e));
                    assert(epochs[e] == old_epochs[e]);
                    assert(starts[e] == before[e]);
                    assert(span_end(starts, n as int, e) == span_end(before, m as int, e));
                } else {
                    assert(epochs[e].accesses == seq![access]);
                    assert(epochs[e].accesses[0] == access);
                    assert(made_of(list, m as int, n as int, access));
                    assert forall|k: int| 0 <= k < epochs[e].accesses.len() implies made_of(
                        list,
                        starts[e],
                        span_end(starts, n as int, e),
                        #[trigger] epochs[e].accesses[k],
                    ) by {}
                }
            }
            starts
        }
    }
}

/// A run that a read continues.
proof fn lemma_run_extended(
    list: Touches,
    is_image: bool,
    m: int,
    old_epochs: Seq<Epoch>,
    starts: Seq<int>,
    epochs: Seq<Epoch>,
    e: int,
)
    requires
        0 <= m < list.len(),
        starts.len() == old_epochs.len(),
        e == old_epochs.len() - 1,
        is_run(list, is_image, m, old_epochs, starts, e),
        !opens_write_epoch(list[m].1),
        continues(old_epochs, list[m].1, is_image),
        epochs == with_touch(old_epochs, list[m].0 as int, list[m].1, is_image),
    ensures
        is_run(list, is_image, m + 1, epochs, starts, e),
{
    let access = list[m].1;
    let from = starts[e];
    let few = old_epochs[e].accesses;
    let all = epochs[e].accesses;
    assert(old_epochs.last() == old_epochs[e]);
    assert(few.len() <= all.len());
    assert forall|k: int| 0 <= k < few.len() implies #[trigger] all[k] == few[k] by {}
    assert(all.contains(access)) by {
        if few.contains(access) {
            let k = choose|k: int| 0 <= k < few.len() && few[k] == access;
            assert(all[k] == access);
        } else {
            assert(all[few.len() as int] == access);
        }
    }
    assert forall|i: int| from <= i < m + 1 implies all.contains((#[trigger] list[i]).1)
        && epochs[e].is_write == opens_write_epoch(list[i].1) by {
        if i < m {
            assert(few.contains(list[i].1));
            let k = choose|k: int| 0 <= k < few.len() && few[k] == list[i].1;
            assert(all[k] == list[i].1);
        }
    }
    assert forall|k: int| 0 <= k < all.len() implies made_of(
        list,
        from,
        m + 1,
        #[trigger] all[k],
    ) by {
        if k < few.len() {
            assert(made_of(list, from, m, few[k]));
            let i = choose|i: int| from <= i < m && (#[trigger] list[i]).1 == few[k];
            assert(list[i].1 == all[k]);
        } else {
            assert(list[m].1 == all[k]);
        }
    }
    if is_image {
        assert forall|k: int| 0 <= k < all.len() implies optimal_layout(#[trigger] all[k])
            == optimal_layout(all[0]) by {
            if k < few.len() {
                assert(all[k] == few[k]);
                assert(optimal_layout(few[k]) == optimal_layout(few[0]));
            }
        }
    }
}

/// The epoch that holds the `i`-th touch.
pub proof fn lemma_epoch_of(
    list: Touches,
    is_image: bool,
    n: int,
    epochs: Seq<Epoch>,
    starts: Seq<int>,
    i: int,
) -> (e: int)
    requires
        are_runs(list, is_image, n, epochs, starts),
        0 <= i < n,
    ensures
        0 <= e < epochs.len(),
        starts[e] <= i < span_end(starts, n, e),
{
    lemma_epoch_search(list, is_image, n, epochs, starts, i, starts.len() - 1)
}

proof fn lemma_epoch_search(
    list: Touches,
    is_image: bool,
    n: int,
    epochs: Seq<Epoch>,
    starts: Seq<int>,
    i: int,
    top: int,
) -> (e: int)
    requires
        are_runs(list, is_image, n, epochs, starts),
        0 <= i < n,
        0 <= top < starts.len(),
        i < span_end(starts, n, top),
    ensures
        0 <= e <= top,
        starts[e] <= i < span_end(starts, n, e),
    decreases top,
{
    assert(is_run(list, is_image, n, epochs, starts, top));
    if starts[top] <= i {
        top
    } else {
        lemma_epoch_search(list, is_image, n, epochs, starts, i, top - 1)
    }
}

pub proof fn lemma_starts_increase(
    list: Touches,
    is_image: bool,
    n: int,
    epochs: Seq<Epoch>,
    starts: Seq<int>,
    a: int,
    b: int,
)
    requires
        are_runs(list, is_image, n, epochs, starts),
        0 <= a < b < starts.len(),
    ensures
        starts[a] < starts[b],
        span_end(starts, n, a) <= starts[b],
    decreases b - a,
{
    assert(is_run(list, is_image, n, epochs, starts, a));
    if a + 1 < b {
        lemma_starts_increase(list, is_image, n, epochs, starts, a + 1, b);
        assert(span_end(starts, n, a) == starts[a + 1]);
    }
}

/// Touches of one pass stand together.
pub open spec fn passes_together(list: Touches) -> bool {
    forall|i: int, j: int, k: int|
        #![trigger list[i], list[j], list[k]]
        0 <= i <= j <= k < list.len() && list[i].0 == list[k].0 ==> list[j].0 == list[i].0
}

/// Within one pass nothing is read after it was written.
pub open spec fn reads_first(list: Touches) -> bool {
    forall|i: int, j: int| #![trigger list[i], list[j]]
        0 <= i < j < list.len() && list[i].0 == list[j].0 && opens_write_epoch(list[i].1)
            ==> opens_write_epoch(list[j].1)
}

/// Every hazard gets a barrier: between two touches of a resource by different
/// passes, at least one of which writes, some epoch boundary is crossed by a barrier
/// that carries the whole epoch on either side.
pub proof fn law_every_hazard_gets_a_barrier(
    list: Touches,
    is_image: bool,
    id: u32,
    seed: Option<Seq<AccessType>>,
    i: int,
    j: int,
) -> (e: int)
    requires
        0 <= i < j < list.len(),
        list[i].0 != list[j].0,
        opens_write_epoch(list[i].1) || opens_write_epoch(list[j].1),
        passes_together(list),
        reads_first(list),
    ensures
        ({
            let epochs = epochs_of(list, is_image, list.len());
            let starts = epoch_starts(list, is_image, list.len());
            &&& 0 < e < epochs.len()
            &&& i < starts[e] <= j
            &&& transition_into(id, seed, epochs, e) == Some(
                Transition {
                    resource_id: id,
                    prev: epochs[e - 1].accesses,
                    next: epochs[e].accesses,
                    discard: false,
                },
            )
        }),
{
    let n = list.len() as int;
    let epochs = epochs_of(list, is_image, list.len());
    let starts = epoch_starts(list, is_image, list.len());
    lemma_starts(list, is_image, list.len());
    let a = lemma_epoch_of(list, is_image, n, epochs, starts, i);
    let b = lemma_epoch_of(list, is_image, n, epochs, starts, j);
    assert(is_run(list, is_image, n, epochs, starts, a));
    assert(is_run(list, is_image, n, epochs, starts, b));
    assert(a < b) by {
        if b < a {
            lemma_starts_increase(list, is_image, n, epochs, starts, b, a);
        }
        if a == b {
            assert(epochs[a].is_write);
        }
    }
    if exists|e: int| a < e <= b && (#[trigger] transition_into(id, seed, epochs, e)) is Some {
        let e = choose|e: int|
            a < e <= b && (#[trigger] transition_into(id, seed, epochs, e)) is Some;
        lemma_starts_increase(list, is_image, n, epochs, starts, a, e);
        if e < b {
            lemma_starts_increase(list, is_image, n, epochs, starts, e, b);
        }
        e
    } else {
        lemma_silent_stretch(list, is_image, id, seed, epochs, starts, a, b, i);
        assert(list[starts[b]].0 == list[i].0);
        lemma_starts_increase(list, is_image, n, epochs, starts, a, b);
        if opens_write_epoch(list[j].1) {
            assert(epochs[b].is_write);
            assert(starts[b] == j);
        } else {
            assert(opens_write_epoch(list[starts[b]].1));
            assert(epochs[b].is_write == opens_write_epoch(list[starts[b]].1));
            assert(epochs[b].is_write == opens_write_epoch(list[j].1));
        }
        b
    }
}

/// Where the epochs of a resource begin.
pub open spec fn epoch_starts(list: Touches, is_image: bool, n: nat) -> Seq<int> {
    choose|starts: Seq<int>|
        are_runs(list, is_image, n as int, epochs_of(list, is_image, n), starts)
}

pub proof fn lemma_starts(list: Touches, is_image: bool, n: nat)
    requires
        n <= list.len(),
    ensures
        are_runs(
            list,
            is_image,
            n as int,
            epochs_of(list, is_image, n),
            epoch_starts(list, is_image, n),
        ),
{
    let starts = law_epochs_are_runs(list, is_image, n);
    assert(are_runs(list, is_image, n as int, epochs_of(list, is_image, n), starts));
}

/// Where no barrier stands between two epochs, all of them but the last lie in one
/// pass, and that is where the last begins.
proof fn lemma_silent_stretch(
    list: Touches,
    is_image: bool,
    id: u32,
    seed: Option<Seq<AccessType>>,
    epochs: Seq<Epoch>,
    starts: Seq<int>,
    a: int,
    b: int,
    i: int,
)
    requires
        are_runs(list, is_image, list.len() as int, epochs, starts),
        passes_together(list),
        0 <= a < b < epochs.len(),
        starts[a] <= i < span_end(starts, list.len() as int, a),
        forall|e: int| a < e <= b ==> (#[trigger] transition_into(id, seed, epochs, e)) is None,
    ensures
        list[starts[b]].0 == list[i].0,
    decreases b - a,
{
    let n = list.len() as int;
    assert(is_run(list, is_image, n, epochs, starts, a));
    assert(is_run(list, is_image, n, epochs, starts, a + 1));
    assert(transition_into(id, seed, epochs, a + 1) is None);
    let from = starts[a];
    let to = span_end(starts, n, a);
    assert(list[from].0 == list[to - 1].0);
    assert(list[i].0 == list[from].0);
    assert(list[starts[a + 1]].0 == list[i].0);
    if a + 1 < b {
        lemma_silent_stretch(
            list,
            is_image,
            id,
            seed,
            epochs,
            starts,
            a + 1,
            b,
            starts[a + 1],
        );
    }
}

// ---------------------------------------------------------------------------
// Reused memory
// ---------------------------------------------------------------------------

proof fn lemma_union_holds(some: Seq<AccessType>, more: Seq<AccessType>, n: nat)
    requires
        n <= more.len(),
    ensures
        forall|k: int| 0 <= k < some.len() ==> union_of(some, more, n).contains(#[trigger] some[k]),
        forall|k: int| 0 <= k < n ==> union_of(some, more, n).contains(#[trigger] more[k]),
        forall|k: int|
            0 <= k < union_of(some, more, n).len() ==> some.contains(
                #[trigger] union_of(some, more, n)[k],
            ) || more.contains(union_of(some, more, n)[k]),
    decreases n,
{
    if n > 0 {
        let m = (n - 1) as nat;
        lemma_union_holds(some, more, m);
        let rest = union_of(some, more, m);
        let all = union_of(some, more, n);
        assert forall|x: AccessType| rest.contains(x) implies #[trigger] all.contains(x) by {
            let k = choose|k: int| 0 <= k < rest.len() && rest[k] == x;
            assert(all[k] == x);
        }
        assert(all.contains(more[n - 1])) by {
            if !rest.contains(more[n - 1]) {
                assert(all[rest.len() as int] == more[n - 1]);
            }
        }
        assert forall|k: int| 0 <= k < some.len() implies all.contains(#[trigger] some[k]) by {
            assert(rest.contains(some[k]));
        }
        assert forall|k: int| 0 <= k < n implies all.contains(#[trigger] more[k]) by {
            if k < m {
                assert(rest.contains(more[k]));
            }
        }
        assert forall|k: int| 0 <= k < all.len() implies some.contains(#[trigger] all[k])
            || more.contains(all[k]) by {
            if k < rest.len() {
                assert(all[k] == rest[k]);
            } else {
                assert(more[n - 1] == all[k]);
            }
        }
    } else {
        assert forall|k: int| 0 <= k < some.len() implies some.contains(#[trigger] some[k]) by {}
    }
}

pub proof fn lemma_all_left_in(all: Seq<Seq<Epoch>>, ids: Seq<u32>, n: nat)
    requires
        n <= ids.len(),
    ensures
        forall|k: int, q: int|
            0 <= k < n && 0 <= q < left_in(all, ids[k]).len() ==> all_left_in(
                all,
                ids,
                n,
            ).contains(#[trigger] left_in(all, ids[k])[q]),
        forall|q: int|
            0 <= q < all_left_in(all, ids, n).len() ==> left_by_one_of(
                all,
                ids,
                #[trigger] all_left_in(all, ids, n)[q],
            ),
    decreases n,
{
    if n > 0 {
        let m = (n - 1) as nat;
        lemma_all_left_in(all, ids, m);
        let rest = all_left_in(all, ids, m);
        let last = left_in(all, ids[n - 1]);
        let out = all_left_in(all, ids, n);
        lemma_union_holds(rest, last, last.len());
        assert forall|k: int, q: int|
            0 <= k < n && 0 <= q < left_in(all, ids[k]).len() implies out.contains(
            #[trigger] left_in(all, ids[k])[q],
        ) by {
            if k < m {
                let x = left_in(all, ids[k])[q];
                assert(rest.contains(x));
                let p = choose|p: int| 0 <= p < rest.len() && rest[p] == x;
                assert(out.contains(rest[p]));
            }
        }
        assert forall|q: int| 0 <= q < out.len() implies left_by_one_of(
            all,
            ids,
            #[trigger] out[q],
        ) by {
            if rest.contains(out[q]) {
                let p = choose|p: int| 0 <= p < rest.len() && rest[p] == out[q];
                assert(left_by_one_of(all, ids, rest[p]));
            } else {
                assert(left_in(all, ids[n - 1]).contains(out[q]));
                assert(left_with(all, ids, n - 1, out[q]));
            }
        }
    }
}

/// Whether the `k`-th of `ids` is left in an access.
pub open spec fn left_with(all: Seq<Seq<Epoch>>, ids: Seq<u32>, k: int, access: AccessType) -> bool {
    0 <= k < ids.len() && left_in(all, ids[k]).contains(access)
}

/// Whether one of `ids` is left in an access.
pub open spec fn left_by_one_of(all: Seq<Seq<Epoch>>, ids: Seq<u32>, access: AccessType) -> bool {
    exists|k: int| #[trigger] left_with(all, ids, k, access)
}

/// A resource that reuses bytes is entered through a discarding barrier which waits
/// for every access that their earlier holders are left in, and for nothing else.
pub proof fn law_reused_memory_is_entered_after_its_holders(
    info: GraphResourceInfo,
    all: Seq<Seq<Epoch>>,
    placements: Placements,
    usages: Usages,
    id: u32,
    k: int,
)
    requires
        info is Created,
        has_predecessors(placements, usages, id),
        id < all.len(),
        all[id as int].len() > 0,
        0 <= k < predecessor_ids(placements, usages, id).len(),
        left_in(all, predecessor_ids(placements, usages, id)[k]).len() > 0,
    ensures
        ({
            let seed = seed_of(info, all, placements, usages, id);
            let ids = predecessor_ids(placements, usages, id);
            &&& transition_into(id, seed, all[id as int], 0) matches Some(t) && {
                &&& t.discard
                &&& t.prev.len() > 0
                &&& t.next == all[id as int][0].accesses
                &&& forall|q: int|
                    0 <= q < left_in(all, ids[k]).len() ==> t.prev.contains(
                        #[trigger] left_in(all, ids[k])[q],
                    )
                &&& forall|q: int|
                    0 <= q < t.prev.len() ==> left_by_one_of(all, ids, #[trigger] t.prev[q])
            }
        }),
{
    let ids = predecessor_ids(placements, usages, id);
    let accesses = all_left_in(all, ids, ids.len());
    lemma_all_left_in(all, ids, ids.len());
    let x = left_in(all, ids[k])[0];
    assert(accesses.contains(x));
}

/// Every barrier into an epoch is planned in front of the epoch's first pass.
pub proof fn law_barriers_stand_before_their_epoch(
    infos: Seq<GraphResourceInfo>,
    all: Seq<Seq<Epoch>>,
    placements: Placements,
    usages: Usages,
    id: u32,
    i: int,
)
    requires
        all.len() == infos.len(),
        infos.len() <= u32::MAX,
        id < all.len(),
        0 <= i < all[id as int].len(),
        transition_into(
            id,
            seed_of(infos[id as int], all, placements, usages, id),
            all[id as int],
            i,
        ) is Some,
    ensures
        transitions_before(
            infos,
            all,
            placements,
            usages,
            all[id as int][i].first_pass,
            infos.len(),
        ).contains(
            transition_into(
                id,
                seed_of(infos[id as int], all, placements, usages, id),
                all[id as int],
                i,
            )->0,
        ),
{
    let seed = seed_of(infos[id as int], all, placements, usages, id);
    let epochs = all[id as int];
    let pass = epochs[i].first_pass;
    let t = transition_into(id, seed, epochs, i)->0;
    lemma_transition_listed(id, seed, epochs, i, epochs.len());
    lemma_resource_listed(infos, all, placements, usages, id, pass, infos.len(), t);
}

proof fn lemma_transition_listed(
    id: u32,
    seed: Option<Seq<AccessType>>,
    epochs: Seq<Epoch>,
    i: int,
    n: nat,
)
    requires
        0 <= i < n,
        transition_into(id, seed, epochs, i) is Some,
    ensures
        resource_transitions(id, seed, epochs, epochs[i].first_pass, n).contains(
            transition_into(id, seed, epochs, i)->0,
        ),
    decreases n,
{
    let pass = epochs[i].first_pass;
    let t = transition_into(id, seed, epochs, i)->0;
    let rest = resource_transitions(id, seed, epochs, pass, (n - 1) as nat);
    let all = resource_transitions(id, seed, epochs, pass, n);
    if i < n - 1 {
        lemma_transition_listed(id, seed, epochs, i, (n - 1) as nat);
        let k = choose|k: int| 0 <= k < rest.len() && rest[k] == t;
        assert(all[k] == t);
    } else {
        assert(all[rest.len() as int] == t);
    }
}

proof fn lemma_resource_listed(
    infos: Seq<GraphResourceInfo>,
    all: Seq<Seq<Epoch>>,
    placements: Placements,
    usages: Usages,
    id: u32,
    pass: int,
    n: nat,
    t: Transition,
)
    requires
        id < n <= u32::MAX,
        resource_transitions(
            id,
            seed_of(infos[id as int], all, placements, usages, id),
            all[id as int],
            pass,
            all[id as int].len(),
        ).contains(t),
    ensures
        transitions_before(infos, all, placements, usages, pass, n).contains(t),
    decreases n,
{
    let m = (n - 1) as nat;
    let rest = transitions_before(infos, all, placements, usages, pass, m);
    let own = resource_transitions(
        m as u32,
        seed_of(infos[m as int], all, placements, usages, m as u32),
        all[m as int],
        pass,
        all[m as int].len(),
    );
    let out = transitions_before(infos, all, placements, usages, pass, n);
    assert(out == rest + own);
    if id < m {
        lemma_resource_listed(infos, all, placements, usages, id, pass, m, t);
        let k = choose|k: int| 0 <= k < rest.len() && rest[k] == t;
        assert(out[k] == t);
    } else {
        let k = choose|k: int| 0 <= k < own.len() && own[k] == t;
        assert(out[rest.len() + k] == t);
    }
}

} // verus!
