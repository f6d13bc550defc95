//! Access epochs, and the barriers between them.
use std::collections::{BTreeMap, HashMap};

use vk_sync_fork::AccessType;
use vstd::prelude::*;

use crate::render_graph::access::{
    contains_access, copy_accesses, image_layout_of, opens_write_epoch, optimal_layout,
    starts_write_epoch, PassResourceAccessType,
};
use crate::render_graph::alias::Placement;
use crate::render_graph::analysis::ResourceLifetimeUsage;
use crate::render_graph::predecessors::{
    addressable, alias_predecessors, are_predecessors, has_predecessors, kept_candidates,
    predecessors_match, Placements, Usages,
};
use crate::render_graph::resource::GraphResourceInfo;
use crate::render_graph::sorting::{
    index_view, key_view, lemma_stable_order, sort_indices, stable_order, strictly_ascending,
};

verus! {

broadcast use {
    vstd::std_specs::hash::group_hash_axioms,
    vstd::std_specs::btree::group_btree_axioms,
};

/// The transition between two consecutive access epochs of one resource.
///
/// `prev` and `next` carry every access of the epoch being left and entered, not one
/// apiece. That is what collapses N reader barriers into one: a single barrier covers
/// the whole run. All accesses within one side imply the same image layout.
#[derive(Debug)]
pub struct ResourceBarrier {
    pub resource_id: u32,
    pub prev: Vec<AccessType>,
    pub next: Vec<AccessType>,
    /// Previous contents are undefined (freshly bound transient memory), so the
    /// transition may discard rather than preserve them.
    pub discard: bool,
}

/// Where a graph resource ends up once the graph's submission completes: the last
/// pass that touched it and the accesses it is left in.
#[derive(Debug)]
pub struct ResourceEndState {
    /// Pass id of the last pass that touched the resource, `None` if the resource was
    /// registered but never used by any pass.
    pub last_use_pass: Option<usize>,
    /// Every access of the resource's final epoch: the whole epoch, not just its last
    /// access. Recording only the last one would make the next frame's
    /// write-after-read barrier name a single source stage, so the write could begin
    /// while the other readers are still in flight. Empty means that the resource was
    /// registered but never used.
    pub end_accesses: Vec<AccessType>,
    /// The write that produced the current contents, if any.
    pub last_write: Option<AccessType>,
    /// Graph-created resource: its backing memory is recycled, so its end state never
    /// matters to the caller.
    pub internal: bool,
}

/// One maximal run of mutually compatible accesses to a single resource: either a
/// single write, or a run of consecutive reads that all imply the same image layout.
/// Consecutive epochs are what barriers sit between.
pub struct AccessEpoch {
    /// Every distinct access in the run.
    pub accesses: Vec<AccessType>,
    pub first_pass: usize,
    pub last_pass: usize,
    pub is_write: bool,
}

// ---------------------------------------------------------------------------
// Epochs
// ---------------------------------------------------------------------------

/// An epoch as its accesses, the passes it spans and whether it writes.
#[verifier::ext_equal]
pub ghost struct Epoch {
    pub accesses: Seq<AccessType>,
    pub first_pass: int,
    pub last_pass: int,
    pub is_write: bool,
}

impl AccessEpoch {
    /// The epoch as contracts speak of it.
    pub open spec fn view(&self) -> Epoch {
        Epoch {
            accesses: self.accesses@,
            first_pass: self.first_pass as int,
            last_pass: self.last_pass as int,
            is_write: self.is_write,
        }
    }
}

/// A list of epochs as contracts speak of it.
pub open spec fn epoch_views(epochs: Seq<AccessEpoch>) -> Seq<Epoch> {
    Seq::new(epochs.len(), |i: int| epochs[i].view())
}

/// Touches of a resource in the order in which the schedule runs them, a pass's
/// touches in the order in which they were declared.
pub open spec fn scheduled(
    usages: Seq<(usize, PassResourceAccessType)>,
    schedule_pos: Seq<usize>,
) -> Seq<(usize, AccessType)> {
    let order = stable_order(schedule_keys(usages, schedule_pos));
    Seq::new(
        usages.len(),
        |i: int| (usages[order[i]].0, usages[order[i]].1.access_type),
    )
}

/// The schedule positions of touches.
pub open spec fn schedule_keys(
    usages: Seq<(usize, PassResourceAccessType)>,
    schedule_pos: Seq<usize>,
) -> Seq<(int, int)> {
    Seq::new(usages.len(), |i: int| (schedule_pos[usages[i].0 as int] as int, 0int))
}

/// Whether a read continues the last epoch: that one reads too, and for an image in
/// the same layout.
pub open spec fn continues(epochs: Seq<Epoch>, access: AccessType, is_image: bool) -> bool {
    &&& epochs.len() > 0
    &&& !epochs.last().is_write
    &&& is_image ==> optimal_layout(epochs.last().accesses[0]) == optimal_layout(access)
}

/// `epochs` with one more touch behind them.
pub open spec fn with_touch(
    epochs: Seq<Epoch>,
    pass: int,
    access: AccessType,
    is_image: bool,
) -> Seq<Epoch> {
    if !opens_write_epoch(access) && continues(epochs, access, is_image) {
        let last = epochs.last();
        let accesses = if last.accesses.contains(access) {
            last.accesses
        } else {
            last.accesses.push(access)
        };
        epochs.drop_last().push(Epoch { accesses, last_pass: pass, ..last })
    } else {
        epochs.push(
            Epoch {
                accesses: seq![access],
                first_pass: pass,
                last_pass: pass,
                is_write: opens_write_epoch(access),
            },
        )
    }
}

/// The epochs of the first `n` touches.
pub open spec fn epochs_of(list: Seq<(usize, AccessType)>, is_image: bool, n: nat) -> Seq<Epoch>
    decreases n,
{
    if n == 0 {
        Seq::empty()
    } else {
        with_touch(
            epochs_of(list, is_image, (n - 1) as nat),
            list[n - 1].0 as int,
            list[n - 1].1,
            is_image,
        )
    }
}

/// The epochs of one resource over a schedule.
pub open spec fn resource_epochs(
    info: GraphResourceInfo,
    usages: Usages,
    schedule_pos: Seq<usize>,
    id: u32,
) -> Seq<Epoch> {
    if usages.contains_key(id) {
        let list = scheduled(usages[id].usages@, schedule_pos);
        epochs_of(list, info.image(), list.len())
    } else {
        Seq::empty()
    }
}

/// Groups the touches of one resource into epochs.
fn build_epochs(
    usage: &ResourceLifetimeUsage,
    is_image: bool,
    schedule_pos: &Vec<usize>,
) -> (epochs: Vec<AccessEpoch>)
    requires
        forall|i: int|
            0 <= i < usage.usages.len() ==> (#[trigger] usage.usages[i]).0 < schedule_pos.len(),
    ensures
        epoch_views(epochs@) == epochs_of(
            scheduled(usage.usages@, schedule_pos@),
            is_image,
            usage.usages@.len(),
        ),
{
    let n: usize = usage.usages.len();
    let mut keys: Vec<(u64, u64)> = Vec::with_capacity(n);
    let mut i: usize = 0;
    while i < n
        invariant
            i <= n,
            n == usage.usages.len(),
            keys.len() == i,
            forall|k: int|
                0 <= k < usage.usages.len() ==> (#[trigger] usage.usages[k]).0
                    < schedule_pos.len(),
            forall|k: int|
                0 <= k < i ==> (#[trigger] keys[k]).0 == schedule_pos[usage.usages[k].0 as int]
                    && keys[k].1 == 0,
        decreases n - i,
    {
        let pass: usize = usage.usages[i].0;
        keys.push((schedule_pos[pass] as u64, 0));
        i = i + 1;
    }
    // Stable: a pass's reads stay ahead of its writes.
    let order = sort_indices(&keys);
    let ghost ks = schedule_keys(usage.usages@, schedule_pos@);
    let ghost list = scheduled(usage.usages@, schedule_pos@);
    proof {
        assert forall|k: int| 0 <= k < ks.len() implies key_view(keys@)[k] == ks[k] by {
            assert(keys[k].0 == schedule_pos[usage.usages[k].0 as int]);
        }
        assert(key_view(keys@) =~= ks);
        lemma_stable_order(ks);
        assert forall|k: int| 0 <= k < order.len() implies #[trigger] order[k] < n && order[k]
            == stable_order(ks)[k] by {
            assert(index_view(order@)[k] == stable_order(ks)[k]);
        }
    }
    let mut epochs: Vec<AccessEpoch> = Vec::new();
    let mut k: usize = 0;
    while k < order.len()
        invariant
            k <= order.len(),
            order.len() == n,
            n == usage.usages.len(),
            list == scheduled(usage.usages@, schedule_pos@),
            ks == schedule_keys(usage.usages@, schedule_pos@),
            forall|j: int|
                0 <= j < order.len() ==> #[trigger] order[j] < n && order[j] == stable_order(
                    ks,
                )[j],
            epoch_views(epochs@) == epochs_of(list, is_image, k as nat),
            forall|j: int|
                0 <= j < epochs.len() ==> (#[trigger] epochs[j]).accesses@.len() > 0,
        decreases order.len() - k,
    {
        let at: usize = order[k];
        let (pass, touch) = usage.usages[at];
        let access = touch.access_type;
        proof {
            assert(list[k as int] == (pass, access));
        }
        push_touch(&mut epochs, pass, access, is_image);
        k = k + 1;
    }
    epochs
}

/// Adds one touch to the epochs of a resource.
fn push_touch(epochs: &mut Vec<AccessEpoch>, pass: usize, access: AccessType, is_image: bool)
    requires
        forall|j: int|
            0 <= j < old(epochs).len() ==> (#[trigger] old(epochs)[j]).accesses@.len() > 0,
    ensures
        epoch_views(final(epochs)@) == with_touch(
            epoch_views(old(epochs)@),
            pass as int,
            access,
            is_image,
        ),
        forall|j: int|
            0 <= j < final(epochs).len() ==> (#[trigger] final(epochs)[j]).accesses@.len() > 0,
{
    let ghost before = epochs@;
    let ghost views = epoch_views(before);
    let is_write = starts_write_epoch(access);
    let n: usize = epochs.len();
    let extends = if is_write || n == 0 {
        false
    } else {
        assert(views.last() == before[n - 1].view());
        let last = &epochs[n - 1];
        !last.is_write && (!is_image || image_layout_of(last.accesses[0]) == image_layout_of(
            access,
        ))
    };
    if extends {
        assert(continues(views, access, is_image));
        match epochs.pop() {
            Some(mut last) => {
                if !contains_access(&last.accesses, access) {
                    last.accesses.push(access);
                }
                last.last_pass = pass;
                epochs.push(last);
                proof {
                    assert(epochs@ == before.drop_last().push(last));
                    assert(epoch_views(epochs@) =~= views.drop_last().push(last.view()));
                }
            },
            None => {},
        }
    } else {
        let mut accesses: Vec<AccessType> = Vec::new();
        accesses.push(access);
        let epoch = AccessEpoch { accesses, first_pass: pass, last_pass: pass, is_write };
        epochs.push(epoch);
        proof {
            assert(accesses@ =~= seq![access]);
            assert(epoch_views(epochs@) =~= views.push(epoch.view()));
        }
    }
}

// ---------------------------------------------------------------------------
// Seeds
// ---------------------------------------------------------------------------

/// The accesses that a resource is left in by its last epoch.
pub open spec fn left_in(all: Seq<Seq<Epoch>>, id: u32) -> Seq<AccessType> {
    if id < all.len() && all[id as int].len() > 0 {
        all[id as int].last().accesses
    } else {
        Seq::empty()
    }
}

/// `some` and those of the first `n` of `more` that it lacks, in order.
pub open spec fn union_of(some: Seq<AccessType>, more: Seq<AccessType>, n: nat) -> Seq<AccessType>
    decreases n,
{
    if n == 0 {
        some
    } else {
        let rest = union_of(some, more, (n - 1) as nat);
        if rest.contains(more[n - 1]) {
            rest
        } else {
            rest.push(more[n - 1])
        }
    }
}

/// The union of what the first `n` of `ids` are left in.
pub open spec fn all_left_in(all: Seq<Seq<Epoch>>, ids: Seq<u32>, n: nat) -> Seq<AccessType>
    decreases n,
{
    if n == 0 {
        Seq::empty()
    } else {
        let last = left_in(all, ids[n - 1]);
        union_of(all_left_in(all, ids, (n - 1) as nat), last, last.len())
    }
}

/// The resources whose bytes `r` reuses and that it waits for, ascending.
pub open spec fn predecessor_ids(placements: Placements, usages: Usages, r: u32) -> Seq<u32> {
    choose|ids: Seq<u32>| are_predecessors(placements, usages, r, ids)
}

/// The accesses that a resource must be entered from, before any of its own. One that
/// reuses bytes comes out of whatever their earlier holders are left in; a new image
/// comes out of nothing at all; a new buffer, and anything imported, has no seed.
pub open spec fn seed_of(
    info: GraphResourceInfo,
    all: Seq<Seq<Epoch>>,
    placements: Placements,
    usages: Usages,
    id: u32,
) -> Option<Seq<AccessType>> {
    if !(info is Created) {
        None
    } else if has_predecessors(placements, usages, id) {
        let ids = predecessor_ids(placements, usages, id);
        let accesses = all_left_in(all, ids, ids.len());
        if accesses.len() == 0 {
            None
        } else {
            Some(accesses)
        }
    } else if info.created_image() {
        Some(seq![AccessType::Nothing])
    } else {
        None
    }
}

pub proof fn lemma_ascending_unique(a: Seq<u32>, b: Seq<u32>)
    requires
        strictly_ascending(a),
        strictly_ascending(b),
        forall|id: u32| #[trigger] a.contains(id) <==> b.contains(id),
    ensures
        a == b,
    decreases a.len(),
{
    if a.len() == 0 {
        if b.len() > 0 {
            assert(b.contains(b[0]));
            assert(a.contains(b[0]));
        }
        assert(a =~= b);
    } else {
        assert(a.contains(a.last()));
        assert(b.contains(a.last()));
        assert(b.contains(b.last()));
        assert(a.contains(b.last()));
        assert(a.last() == b.last()) by {
            let i = choose|i: int| 0 <= i < a.len() && a[i] == b.last();
            let j = choose|j: int| 0 <= j < b.len() && b[j] == a.last();
            if i < a.len() - 1 {
                assert(a[i] < a[a.len() - 1]);
            }
            if j < b.len() - 1 {
                assert(b[j] < b[b.len() - 1]);
            }
        }
        let x = a.drop_last();
        let y = b.drop_last();
        assert forall|id: u32| #[trigger] x.contains(id) <==> y.contains(id) by {
            if x.contains(id) {
                let i = choose|i: int| 0 <= i < x.len() && x[i] == id;
                assert(a[i] == id);
                assert(a[i] < a[a.len() - 1]);
                assert(a.contains(id));
                assert(b.contains(id));
                let j = choose|j: int| 0 <= j < b.len() && b[j] == id;
                assert(y[j] == id);
            }
            if y.contains(id) {
                let j = choose|j: int| 0 <= j < y.len() && y[j] == id;
                assert(b[j] == id);
                assert(b[j] < b[b.len() - 1]);
                assert(b.contains(id));
                assert(a.contains(id));
                let i = choose|i: int| 0 <= i < a.len() && a[i] == id;
                assert(x[i] == id);
            }
        }
        lemma_ascending_unique(x, y);
        assert(a =~= x.push(a.last()));
        assert(b =~= y.push(b.last()));
    }
}

pub proof fn lemma_predecessor_ids(placements: Placements, usages: Usages, r: u32, ids: Seq<u32>)
    requires
        are_predecessors(placements, usages, r, ids),
    ensures
        predecessor_ids(placements, usages, r) == ids,
{
    let chosen = predecessor_ids(placements, usages, r);
    assert forall|id: u32| #[trigger] chosen.contains(id) <==> ids.contains(id) by {
        assert(chosen.contains(id) <==> kept_candidates(placements, usages, r).contains(id));
        assert(ids.contains(id) <==> kept_candidates(placements, usages, r).contains(id));
    }
    lemma_ascending_unique(chosen, ids);
}

/// Adds to `some` whatever of `more` it lacks.
fn add_accesses(some: &mut Vec<AccessType>, more: &Vec<AccessType>)
    ensures
        final(some)@ == union_of(old(some)@, more@, more@.len()),
{
    let ghost before = some@;
    let mut i: usize = 0;
    while i < more.len()
        invariant
            i <= more.len(),
            some@ == union_of(before, more@, i as nat),
        decreases more.len() - i,
    {
        if !contains_access(some, more[i]) {
            some.push(more[i]);
        }
        i = i + 1;
    }
}

/// The epochs of all resources as contracts speak of them.
pub open spec fn all_views(all: Seq<Vec<AccessEpoch>>) -> Seq<Seq<Epoch>> {
    Seq::new(all.len(), |i: int| epoch_views(all[i]@))
}

/// What a resource must be entered from: see [`seed_of`].
fn build_seed(
    info: &GraphResourceInfo,
    all: &Vec<Vec<AccessEpoch>>,
    predecessors: &HashMap<u32, Vec<u32>>,
    id: u32,
    Ghost(placements): Ghost<Placements>,
    Ghost(usages): Ghost<Usages>,
) -> (seed: Option<Vec<AccessType>>)
    requires
        predecessors_match(predecessors@, placements, usages),
    ensures
        match seed {
            Some(accesses) => seed_of(*info, all_views(all@), placements, usages, id) == Some(
                accesses@,
            ),
            None => seed_of(*info, all_views(all@), placements, usages, id) is None,
        },
{
    if !info.is_created() {
        return None;
    }
    let ghost views = all_views(all@);
    proof {
        assert(predecessors@.contains_key(id) <==> has_predecessors(placements, usages, id));
    }
    match predecessors.get(&id) {
        Some(ids) => {
            proof {
                lemma_predecessor_ids(placements, usages, id, ids@);
            }
            let mut accesses: Vec<AccessType> = Vec::new();
            let mut i: usize = 0;
            while i < ids.len()
                invariant
                    i <= ids.len(),
                    views == all_views(all@),
                    accesses@ == all_left_in(views, ids@, i as nat),
                decreases ids.len() - i,
            {
                let other: u32 = ids[i];
                if (other as usize) < all.len() {
                    let epochs = &all[other as usize];
                    assert(views[other as int] == epoch_views(epochs@));
                    if epochs.len() > 0 {
                        assert(views[other as int].last() == epochs@[epochs.len() - 1].view());
                        add_accesses(&mut accesses, &epochs[epochs.len() - 1].accesses);
                    }
                }
                i = i + 1;
            }
            if accesses.len() == 0 {
                None
            } else {
                Some(accesses)
            }
        },
        None => {
            match info {
                GraphResourceInfo::Created(crate::render_graph::resource::GraphResourceDesc::Image(_)) => {
                    let mut accesses: Vec<AccessType> = Vec::new();
                    accesses.push(AccessType::Nothing);
                    proof {
                        assert(accesses@ =~= seq![AccessType::Nothing]);
                    }
                    Some(accesses)
                },
                _ => None,
            }
        },
    }
}

// ---------------------------------------------------------------------------
// Transitions and end states
// ---------------------------------------------------------------------------

/// A barrier as its resource, the accesses on both sides, and whether it discards.
#[verifier::ext_equal]
pub ghost struct Transition {
    pub resource_id: u32,
    pub prev: Seq<AccessType>,
    pub next: Seq<AccessType>,
    pub discard: bool,
}

impl ResourceBarrier {
    /// The barrier as contracts speak of it.
    pub open spec fn view(&self) -> Transition {
        Transition {
            resource_id: self.resource_id,
            prev: self.prev@,
            next: self.next@,
            discard: self.discard,
        }
    }
}

/// A list of barriers as contracts speak of it.
pub open spec fn barrier_views(barriers: Seq<ResourceBarrier>) -> Seq<Transition> {
    Seq::new(barriers.len(), |i: int| barriers[i].view())
}

/// The barrier into the `i`-th epoch of a resource, if one is needed. The first is
/// entered from the seed, discarding. Two epochs wholly inside one pass need none: a
/// pass that reads then writes its own resource serializes that itself. The epoch
/// being left must be confined to that pass, not merely end there: nothing else
/// orders its earlier readers against the write.
pub open spec fn transition_into(
    id: u32,
    seed: Option<Seq<AccessType>>,
    epochs: Seq<Epoch>,
    i: int,
) -> Option<Transition> {
    if i == 0 {
        match seed {
            Some(accesses) => Some(
                Transition {
                    resource_id: id,
                    prev: accesses,
                    next: epochs[0].accesses,
                    discard: true,
                },
            ),
            None => None,
        }
    } else if epochs[i - 1].first_pass == epochs[i - 1].last_pass && epochs[i - 1].last_pass
        == epochs[i].first_pass {
        None
    } else {
        Some(
            Transition {
                resource_id: id,
                prev: epochs[i - 1].accesses,
                next: epochs[i].accesses,
                discard: false,
            },
        )
    }
}

/// The barriers of one resource that belong in front of a pass, among those into its
/// first `n` epochs.
pub open spec fn resource_transitions(
    id: u32,
    seed: Option<Seq<AccessType>>,
    epochs: Seq<Epoch>,
    pass: int,
    n: nat,
) -> Seq<Transition>
    decreases n,
{
    if n == 0 {
        Seq::empty()
    } else {
        let rest = resource_transitions(id, seed, epochs, pass, (n - 1) as nat);
        match transition_into(id, seed, epochs, n - 1) {
            Some(t) if epochs[n - 1].first_pass == pass => rest.push(t),
            _ => rest,
        }
    }
}

/// The epochs of all resources.
pub open spec fn epochs_of_all(
    infos: Seq<GraphResourceInfo>,
    usages: Usages,
    schedule_pos: Seq<usize>,
) -> Seq<Seq<Epoch>> {
    Seq::new(infos.len(), |i: int| resource_epochs(infos[i], usages, schedule_pos, i as u32))
}

/// The barriers that belong in front of a pass, for the first `n` resources in the
/// order of their ids.
pub open spec fn transitions_before(
    infos: Seq<GraphResourceInfo>,
    all: Seq<Seq<Epoch>>,
    placements: Placements,
    usages: Usages,
    pass: int,
    n: nat,
) -> Seq<Transition>
    decreases n,
{
    if n == 0 {
        Seq::empty()
    } else {
        let id = (n - 1) as u32;
        transitions_before(infos, all, placements, usages, pass, (n - 1) as nat)
            + resource_transitions(
            id,
            seed_of(infos[n - 1], all, placements, usages, id),
            all[n - 1],
            pass,
            all[n - 1].len(),
        )
    }
}

/// The write that the epochs of a resource leave in it.
pub open spec fn last_write_of(epochs: Seq<Epoch>) -> Option<AccessType>
    decreases epochs.len(),
{
    if epochs.len() == 0 {
        None
    } else if epochs.last().is_write {
        Some(epochs.last().accesses.last())
    } else {
        last_write_of(epochs.drop_last())
    }
}

/// Whether an end state is what a resource's epochs leave.
pub open spec fn ends_as(end: ResourceEndState, info: GraphResourceInfo, epochs: Seq<Epoch>) -> bool {
    &&& end.last_use_pass == if epochs.len() == 0 {
        None
    } else {
        Some(epochs.last().last_pass as usize)
    }
    &&& end.end_accesses@ == if epochs.len() == 0 {
        Seq::<AccessType>::empty()
    } else {
        epochs.last().accesses
    }
    &&& end.last_write == last_write_of(epochs)
    &&& end.internal == (info is Created)
}

/// Whether `barriers` holds exactly the passes that `before` has barriers for, and
/// for each of them those barriers.
pub open spec fn barriers_match(
    barriers: Map<usize, Vec<ResourceBarrier>>,
    before: spec_fn(int) -> Seq<Transition>,
) -> bool {
    forall|p: usize| #[trigger] barriers_match_at(barriers, before, p)
}

/// Whether `barriers` holds what belongs in front of one pass.
pub open spec fn barriers_match_at(
    barriers: Map<usize, Vec<ResourceBarrier>>,
    before: spec_fn(int) -> Seq<Transition>,
    p: usize,
) -> bool {
    if barriers.contains_key(p) {
        before(p as int).len() > 0 && barrier_views(barriers[p]@) == before(p as int)
    } else {
        before(p as int).len() == 0
    }
}

/// Adds a barrier in front of a pass.
fn push_barrier(
    barriers: &mut HashMap<usize, Vec<ResourceBarrier>>,
    pass: usize,
    barrier: ResourceBarrier,
    Ghost(before): Ghost<spec_fn(int) -> Seq<Transition>>,
    Ghost(after): Ghost<spec_fn(int) -> Seq<Transition>>,
)
    requires
        barriers_match(old(barriers)@, before),
        forall|p: int| #[trigger]
            after(p) == if p == pass {
                before(p).push(barrier.view())
            } else {
                before(p)
            },
    ensures
        barriers_match(final(barriers)@, after),
{
    let ghost map = barriers@;
    let mut list = match barriers.remove(&pass) {
        Some(list) => list,
        None => Vec::new(),
    };
    let ghost few = list@;
    proof {
        assert(barriers_match_at(map, before, pass));
        assert(barrier_views(few) =~= before(pass as int));
    }
    list.push(barrier);
    proof {
        assert(barrier_views(list@) =~= barrier_views(few).push(barrier.view()));
    }
    barriers.insert(pass, list);
    proof {
        assert forall|p: usize| #[trigger] barriers_match_at(barriers@, after, p) by {
            assert(barriers_match_at(map, before, p));
            assert(after(p as int) == if p == pass {
                before(p as int).push(barrier.view())
            } else {
                before(p as int)
            });
        }
    }
}

/// The barriers before a pass once those into the first `i` epochs of resource `n`
/// have joined those of the resources before it.
spec fn before_so_far(
    infos: Seq<GraphResourceInfo>,
    all: Seq<Seq<Epoch>>,
    placements: Placements,
    usages: Usages,
    n: nat,
    i: nat,
) -> spec_fn(int) -> Seq<Transition> {
    |p: int|
        transitions_before(infos, all, placements, usages, p, n) + resource_transitions(
            n as u32,
            seed_of(infos[n as int], all, placements, usages, n as u32),
            all[n as int],
            p,
            i,
        )
}

/// Adds the barriers of one resource.
fn push_transitions(
    barriers: &mut HashMap<usize, Vec<ResourceBarrier>>,
    id: u32,
    seed: &Option<Vec<AccessType>>,
    epochs: &Vec<AccessEpoch>,
    Ghost(infos): Ghost<Seq<GraphResourceInfo>>,
    Ghost(all): Ghost<Seq<Seq<Epoch>>>,
    Ghost(placements): Ghost<Placements>,
    Ghost(usages): Ghost<Usages>,
)
    requires
        id < all.len(),
        all.len() == infos.len(),
        all[id as int] == epoch_views(epochs@),
        match *seed {
            Some(accesses) => seed_of(infos[id as int], all, placements, usages, id) == Some(
                accesses@,
            ),
            None => seed_of(infos[id as int], all, placements, usages, id) is None,
        },
        barriers_match(
            old(barriers)@,
            |p: int| transitions_before(infos, all, placements, usages, p, id as nat),
        ),
    ensures
        barriers_match(
            final(barriers)@,
            |p: int| transitions_before(infos, all, placements, usages, p, (id + 1) as nat),
        ),
{
    let ghost views = epoch_views(epochs@);
    let ghost seeded = seed_of(infos[id as int], all, placements, usages, id);
    let ghost first = |p: int| transitions_before(infos, all, placements, usages, p, id as nat);
    let mut i: usize = 0;
    proof {
        let now = before_so_far(infos, all, placements, usages, id as nat, 0);
        assert forall|p: usize| #[trigger] barriers_match_at(barriers@, now, p) by {
            assert(barriers_match_at(barriers@, first, p));
            assert(now(p as int) =~= first(p as int));
        }
    }
    while i < epochs.len()
        invariant
            i <= epochs.len(),
            id < all.len(),
            all.len() == infos.len(),
            views == epoch_views(epochs@),
            all[id as int] == views,
            seeded == seed_of(infos[id as int], all, placements, usages, id),
            match *seed {
                Some(accesses) => seeded == Some(accesses@),
                None => seeded is None,
            },
            barriers_match(
                barriers@,
                before_so_far(infos, all, placements, usages, id as nat, i as nat),
            ),
        decreases epochs.len() - i,
    {
        let ghost before = before_so_far(infos, all, placements, usages, id as nat, i as nat);
        let ghost after = before_so_far(infos, all, placements, usages, id as nat, (i + 1) as nat);
        let ghost into = transition_into(id, seeded, views, i as int);
        let next = &epochs[i];
        assert(views[i as int] == next.view());
        let barrier: Option<ResourceBarrier> = if i == 0 {
            match seed {
                Some(accesses) => Some(
                    ResourceBarrier {
                        resource_id: id,
                        prev: copy_accesses(accesses),
                        next: copy_accesses(&next.accesses),
                        discard: true,
                    },
                ),
                None => None,
            }
        } else {
            let prev = &epochs[i - 1];
            assert(views[i - 1] == prev.view());
            if prev.first_pass == prev.last_pass && prev.last_pass == next.first_pass {
                None
            } else {
                Some(
                    ResourceBarrier {
                        resource_id: id,
                        prev: copy_accesses(&prev.accesses),
                        next: copy_accesses(&next.accesses),
                        discard: false,
                    },
                )
            }
        };
        let pass: usize = next.first_pass;
        match barrier {
            Some(barrier) => {
                proof {
                    assert(into == Some(barrier.view()));
                    assert forall|p: int| #[trigger] after(p) == if p == pass {
                        before(p).push(barrier.view())
                    } else {
                        before(p)
                    } by {
                        let head = transitions_before(
                            infos,
                            all,
                            placements,
                            usages,
                            p,
                            id as nat,
                        );
                        let tail = resource_transitions(id, seeded, views, p, i as nat);
                        assert(after(p) =~= if p == pass {
                            (head + tail).push(barrier.view())
                        } else {
                            head + tail
                        });
                    }
                }
                push_barrier(barriers, pass, barrier, Ghost(before), Ghost(after));
            },
            None => {
                proof {
                    assert(into is None);
                    assert forall|p: usize| #[trigger] barriers_match_at(barriers@, after, p) by {
                        assert(barriers_match_at(barriers@, before, p));
                        assert(after(p as int) =~= before(p as int));
                    }
                }
            },
        }
        i = i + 1;
    }
    proof {
        let now = before_so_far(infos, all, placements, usages, id as nat, i as nat);
        let last = |p: int|
            transitions_before(infos, all, placements, usages, p, (id + 1) as nat);
        assert forall|p: usize| #[trigger] barriers_match_at(barriers@, last, p) by {
            assert(barriers_match_at(barriers@, now, p));
            assert(last(p as int) =~= now(p as int));
        }
    }
}

/// The end state that a resource's epochs leave.
fn end_state_of(info: &GraphResourceInfo, epochs: &Vec<AccessEpoch>) -> (end: ResourceEndState)
    requires
        forall|j: int| 0 <= j < epochs.len() ==> (#[trigger] epochs[j]).accesses@.len() > 0,
    ensures
        ends_as(end, *info, epoch_views(epochs@)),
{
    let n: usize = epochs.len();
    let ghost views = epoch_views(epochs@);
    let internal = info.is_created();
    if n == 0 {
        return ResourceEndState {
            last_use_pass: None,
            end_accesses: Vec::new(),
            last_write: None,
            internal,
        };
    }
    assert(views.last() == epochs@[n - 1].view());
    let last_use_pass = Some(epochs[n - 1].last_pass);
    let end_accesses = copy_accesses(&epochs[n - 1].accesses);
    let mut last_write: Option<AccessType> = None;
    let mut k: usize = n;
    proof {
        assert(views.take(n as int) =~= views);
    }
    while k > 0
        invariant_except_break
            last_write is None,
        invariant
            k <= n,
            n == epochs.len(),
            views == epoch_views(epochs@),
            forall|j: int| 0 <= j < epochs.len() ==> (#[trigger] epochs[j]).accesses@.len() > 0,
            last_write_of(views) == last_write_of(views.take(k as int)),
        ensures
            last_write == last_write_of(views),
        decreases k,
    {
        let epoch = &epochs[k - 1];
        assert(views.take(k as int).last() == epoch.view());
        assert(views.take(k as int).drop_last() =~= views.take(k - 1));
        if epoch.is_write {
            last_write = Some(epoch.accesses[epoch.accesses.len() - 1]);
            break;
        }
        k = k - 1;
    }
    ResourceEndState { last_use_pass, end_accesses, last_write, internal }
}

/// Whether every touch names a pass of the schedule.
pub open spec fn passes_scheduled(usages: Usages, schedule_len: int) -> bool {
    forall|id: u32, i: int|
        #![trigger usages[id].usages@[i]]
        usages.contains_key(id) && 0 <= i < usages[id].usages@.len() ==> usages[id].usages@[i].0
            < schedule_len
}

/// Group every resource's usages into access epochs and derive, from the transitions
/// between them, the minimum set of barriers plus each resource's end state.
///
/// Returns barriers keyed by the pass they must be issued before: a position in the
/// schedule, never a graph edge. `schedule_pos` maps a pass id to its index in the
/// topological order. Usages are recorded in pass-id order, which is not necessarily
/// schedule order, so they are sorted before grouping. Placement is the last legal
/// point, immediately before the first pass of the epoch being entered.
///
/// `placements` maps a transient resource to the memory it was bound into; resources
/// whose byte ranges overlap alias the same memory and need a barrier between them.
/// Aliased memory always discards: the previous occupant's layout says nothing about
/// this one.
pub fn plan_barriers(
    virtual_resources: &Vec<GraphResourceInfo>,
    resource_usages: &BTreeMap<u32, ResourceLifetimeUsage>,
    schedule_pos: &Vec<usize>,
    placements: &HashMap<u32, Placement>,
) -> (planned: (HashMap<usize, Vec<ResourceBarrier>>, HashMap<u32, ResourceEndState>))
    requires
        virtual_resources.len() <= u32::MAX,
        passes_scheduled(resource_usages@, schedule_pos.len() as int),
        addressable(placements@),
    ensures
        ({
            let all = epochs_of_all(virtual_resources@, resource_usages@, schedule_pos@);
            &&& barriers_match(
                planned.0@,
                |p: int|
                    transitions_before(
                        virtual_resources@,
                        all,
                        placements@,
                        resource_usages@,
                        p,
                        virtual_resources@.len(),
                    ),
            )
            &&& forall|id: u32| #[trigger]
                planned.1@.contains_key(id) <==> id < virtual_resources.len()
            &&& forall|id: u32| #[trigger]
                planned.1@.contains_key(id) ==> ends_as(
                    planned.1@[id],
                    virtual_resources@[id as int],
                    all[id as int],
                )
        }),
{
    let n: usize = virtual_resources.len();
    let ghost infos = virtual_resources@;
    let ghost us = resource_usages@;
    let ghost pl = placements@;
    let ghost all = epochs_of_all(infos, us, schedule_pos@);
    let mut epochs_by_res: Vec<Vec<AccessEpoch>> = Vec::with_capacity(n);
    let mut i: usize = 0;
    while i < n
        invariant
            i <= n,
            n == virtual_resources.len(),
            n <= u32::MAX,
            infos == virtual_resources@,
            us == resource_usages@,
            all == epochs_of_all(infos, us, schedule_pos@),
            passes_scheduled(us, schedule_pos.len() as int),
            epochs_by_res.len() == i,
            forall|k: int| 0 <= k < i ==> epoch_views((#[trigger] epochs_by_res[k])@) == all[k],
        decreases n - i,
    {
        let id: u32 = i as u32;
        let is_image = virtual_resources[i].is_image();
        let epochs: Vec<AccessEpoch> = match resource_usages.get(&id) {
            Some(usage) => {
                proof {
                    assert forall|k: int| 0 <= k < usage.usages.len() implies (
                    #[trigger] usage.usages[k]).0 < schedule_pos.len() by {
                        assert(us[id].usages@[k].0 < schedule_pos.len());
                    }
                }
                build_epochs(usage, is_image, schedule_pos)
            },
            None => Vec::new(),
        };
        proof {
            assert(epoch_views(epochs@) =~= all[i as int]);
        }
        epochs_by_res.push(epochs);
        i = i + 1;
    }
    proof {
        assert(all_views(epochs_by_res@) =~= all);
    }
    let predecessors = alias_predecessors(placements, resource_usages);
    let mut barriers_at: HashMap<usize, Vec<ResourceBarrier>> = HashMap::new();
    let mut end_states: HashMap<u32, ResourceEndState> = HashMap::new();
    let mut r: usize = 0;
    proof {
        let none = |p: int| transitions_before(infos, all, pl, us, p, 0);
        assert forall|p: usize| #[trigger] barriers_match_at(barriers_at@, none, p) by {}
    }
    while r < n
        invariant
            r <= n,
            n == virtual_resources.len(),
            n <= u32::MAX,
            infos == virtual_resources@,
            us == resource_usages@,
            pl == placements@,
            all == epochs_of_all(infos, us, schedule_pos@),
            epochs_by_res.len() == n,
            all_views(epochs_by_res@) == all,
            predecessors_match(predecessors@, pl, us),
            barriers_match(
                barriers_at@,
                |p: int| transitions_before(infos, all, pl, us, p, r as nat),
            ),
            forall|id: u32| #[trigger] end_states@.contains_key(id) <==> id < r,
            forall|id: u32| #[trigger]
                end_states@.contains_key(id) ==> ends_as(
                    end_states@[id],
                    infos[id as int],
                    all[id as int],
                ),
        decreases n - r,
    {
        let id: u32 = r as u32;
        let info = &virtual_resources[r];
        let epochs = &epochs_by_res[r];
        proof {
            assert(all[r as int] == epoch_views(epochs@)) by {
                assert(all_views(epochs_by_res@)[r as int] == epoch_views(epochs@));
            }
            lemma_epochs_touched(infos[r as int], us, schedule_pos@, id);
            assert forall|j: int| 0 <= j < epochs.len() implies (
            #[trigger] epochs[j]).accesses@.len() > 0 by {
                assert(all[r as int][j] == epochs[j].view());
            }
        }
        let seed = build_seed(info, &epochs_by_res, &predecessors, id, Ghost(pl), Ghost(us));
        push_transitions(
            &mut barriers_at,
            id,
            &seed,
            epochs,
            Ghost(infos),
            Ghost(all),
            Ghost(pl),
            Ghost(us),
        );
        let end = end_state_of(info, epochs);
        end_states.insert(id, end);
        r = r + 1;
    }
    (barriers_at, end_states)
}

proof fn lemma_epochs_touched(
    info: GraphResourceInfo,
    usages: Usages,
    schedule_pos: Seq<usize>,
    id: u32,
)
    ensures
        forall|j: int|
            0 <= j < resource_epochs(info, usages, schedule_pos, id).len() ==> (
            #[trigger] resource_epochs(info, usages, schedule_pos, id)[j]).accesses.len() > 0,
{
    if usages.contains_key(id) {
        let list = scheduled(usages[id].usages@, schedule_pos);
        lemma_epochs_nonempty(list, info.image(), list.len());
    }
}

proof fn lemma_epochs_nonempty(list: Seq<(usize, AccessType)>, is_image: bool, n: nat)
    ensures
        forall|j: int|
            0 <= j < epochs_of(list, is_image, n).len() ==> (#[trigger] epochs_of(
                list,
                is_image,
                n,
            )[j]).accesses.len() > 0,
    decreases n,
{
    if n > 0 {
        lemma_epochs_nonempty(list, is_image, (n - 1) as nat);
        let rest = epochs_of(list, is_image, (n - 1) as nat);
        let all = epochs_of(list, is_image, n);
        assert forall|j: int| 0 <= j < all.len() implies (#[trigger] all[j]).accesses.len() > 0 by {
            if j < all.len() - 1 {
                assert(all[j] == rest[j]);
            }
        }
    }
}

} // verus!
