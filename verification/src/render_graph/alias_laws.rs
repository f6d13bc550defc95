//! What every memory plan guarantees.
use vstd::arithmetic::div_mod::lemma_fundamental_div_mod;
use vstd::prelude::*;

use crate::render_graph::alias::{
    admits, arranged, ascending, best_region, block_end, blocked_by, bucket_plan, bytes_of,
    component_plan, first_fit, fitting_offset, grown, is_live_peak, is_power_of_two, larger,
    lemma_round_up, live_at, live_bytes, live_together, members_of, off_plan, pack_bucket, place_occupants, plan_of,
    region_end, region_start, round_up, slot_plan, slot_step, sole, visit_keys, with_id,
    AliasResource, AliasStrategy, BucketReqs, Placement, PlanView,
};
use crate::render_graph::schedule::lemma_distinct_below;
use crate::render_graph::sorting::{lemma_stable_order, pair_lt, stable_order};

verus! {

// ---------------------------------------------------------------------------
// Fitting
// ---------------------------------------------------------------------------

/// Whether the `need` bytes at `offset` stay clear of the block that the `i`-th
/// occupant reserves.
pub open spec fn clear_of(
    occupants: Seq<(AliasResource, u64)>,
    i: int,
    granularity: u64,
    offset: int,
    need: int,
) -> bool {
    offset + need <= occupants[i].1 || block_end(
        occupants[i].1,
        occupants[i].0.size,
        granularity as int,
    ) <= offset
}

proof fn lemma_round_up_least(x: int, m: int, o: int)
    requires
        m > 0,
        x <= o,
        o % m == 0,
    ensures
        round_up(x, m) <= o,
{
    lemma_round_up(x, m);
    let u = round_up(x, m);
    lemma_fundamental_div_mod(u, m);
    lemma_fundamental_div_mod(o, m);
    let a = u / m;
    let b = o / m;
    assert(u <= o) by (nonlinear_arith)
        requires
            u == m * a,
            o == m * b,
            m > 0,
            u < o + m,
    ;
}

/// Whether `range` is what the `i`-th occupant keeps `r` from using.
spec fn blocks(
    occupants: Seq<(AliasResource, u64)>,
    r: AliasResource,
    g: int,
    i: int,
    range: (int, int),
) -> bool {
    &&& 0 <= i < occupants.len()
    &&& live_together(occupants[i].0, r)
    &&& range == (occupants[i].1 as int, block_end(occupants[i].1, occupants[i].0.size, g))
}

/// Whether each of `ranges` is what some occupant keeps `r` from using.
spec fn all_owned(
    occupants: Seq<(AliasResource, u64)>,
    r: AliasResource,
    g: int,
    ranges: Seq<(int, int)>,
) -> bool {
    forall|k: int|
        0 <= k < ranges.len() ==> owned(occupants, r, g, #[trigger] ranges[k])
}

/// Whether `range` is what some occupant keeps `r` from using.
spec fn owned(
    occupants: Seq<(AliasResource, u64)>,
    r: AliasResource,
    g: int,
    range: (int, int),
) -> bool {
    exists|i: int| #[trigger] blocks(occupants, r, g, i, range)
}

/// Every blocked range comes from an occupant that is live together with `r`, and
/// every such occupant blocks its range.
proof fn lemma_blocked_by(occupants: Seq<(AliasResource, u64)>, r: AliasResource, g: int)
    ensures
        forall|i: int|
            0 <= i < occupants.len() && live_together((#[trigger] occupants[i]).0, r) ==> blocked_by(
                occupants,
                r,
                g,
            ).contains((occupants[i].1 as int, block_end(occupants[i].1, occupants[i].0.size, g))),
        all_owned(occupants, r, g, blocked_by(occupants, r, g)),
    decreases occupants.len(),
{
    if occupants.len() > 0 {
        let rest = occupants.drop_last();
        lemma_blocked_by(rest, r, g);
        let inner = blocked_by(rest, r, g);
        let out = blocked_by(occupants, r, g);
        let n = occupants.len() - 1;
        assert forall|i: int|
            0 <= i < occupants.len() && live_together((#[trigger] occupants[i]).0, r) implies out.contains(
            (occupants[i].1 as int, block_end(occupants[i].1, occupants[i].0.size, g)),
        ) by {
            let entry = (
                occupants[i].1 as int,
                block_end(occupants[i].1, occupants[i].0.size, g),
            );
            if i < n {
                assert(rest[i] == occupants[i]);
                assert(inner.contains(entry));
                let k = choose|k: int| 0 <= k < inner.len() && inner[k] == entry;
                assert(out[k] == entry);
            } else {
                assert(out[out.len() - 1] == entry);
            }
        }
        assert forall|k: int| 0 <= k < out.len() implies owned(
            occupants,
            r,
            g,
            #[trigger] out[k],
        ) by {
            if k < inner.len() {
                assert(out[k] == inner[k]);
                assert(owned(rest, r, g, inner[k]));
                let i = choose|i: int| #[trigger] blocks(rest, r, g, i, inner[k]);
                assert(blocks(occupants, r, g, i, out[k]));
            } else {
                assert(blocks(occupants, r, g, n, out[k]));
            }
        }
    }
}

/// `ascending` keeps the ranges and puts them in order of where they start.
proof fn lemma_ascending(blocked: Seq<(int, int)>)
    ensures
        ascending(blocked).len() == blocked.len(),
        forall|x: (int, int)| #[trigger] ascending(blocked).contains(x) <==> blocked.contains(x),
        forall|a: int, b: int|
            0 <= a < b < blocked.len() ==> (#[trigger] ascending(blocked)[a]).0 <= (
            #[trigger] ascending(blocked)[b]).0,
{
    let order = stable_order(blocked);
    let sorted = ascending(blocked);
    lemma_stable_order(blocked);
    assert forall|x: (int, int)| #[trigger] sorted.contains(x) <==> blocked.contains(x) by {
        if sorted.contains(x) {
            let k = choose|k: int| 0 <= k < sorted.len() && sorted[k] == x;
            assert(blocked[order[k]] == x);
        }
        if blocked.contains(x) {
            let i = choose|i: int| 0 <= i < blocked.len() && blocked[i] == x;
            assert(order.contains(i));
            let k = choose|k: int| 0 <= k < order.len() && order[k] == i;
            assert(sorted[k] == x);
        }
    }
    assert forall|a: int, b: int| 0 <= a < b < blocked.len() implies (#[trigger] sorted[a]).0 <= (
    #[trigger] sorted[b]).0 by {
        assert(!pair_lt(blocked[order[b]], blocked[order[a]]));
    }
}

/// Region starts lie behind every earlier blocked range.
proof fn lemma_region_start(sorted: Seq<(int, int)>, k: nat)
    requires
        k <= sorted.len(),
    ensures
        region_start(sorted, k) >= 0,
        forall|j: int| 0 <= j < k ==> (#[trigger] sorted[j]).1 <= region_start(sorted, k),
        region_start(sorted, k) == 0 || exists|j: int|
            0 <= j < k && (#[trigger] sorted[j]).1 == region_start(sorted, k),
    decreases k,
{
    if k > 0 {
        lemma_region_start(sorted, (k - 1) as nat);
        assert(sorted[k - 1].1 <= region_start(sorted, k));
    }
}

/// The region that `best_region` settles on.
proof fn lemma_best_region(sorted: Seq<(int, int)>, capacity: int, align: int, need: int, n: nat)
    requires
        n <= sorted.len() + 1,
    ensures
        match best_region(sorted, capacity, align, need, n) {
            Some((len, offset)) => exists|k: nat|
                #![trigger region_start(sorted, k)]
                k < n && offset == round_up(region_start(sorted, k), align) && region_end(
                    sorted,
                    capacity,
                    k as int,
                ) > region_start(sorted, k) && offset + need <= region_end(
                    sorted,
                    capacity,
                    k as int,
                ) && len == region_end(sorted, capacity, k as int) - region_start(sorted, k),
            None => forall|k: nat|
                k < n ==> !(region_end(sorted, capacity, k as int) > #[trigger] region_start(
                    sorted,
                    k,
                ) && round_up(region_start(sorted, k), align) + need <= region_end(
                    sorted,
                    capacity,
                    k as int,
                )),
        },
    decreases n,
{
    if n > 0 {
        let m = (n - 1) as nat;
        lemma_best_region(sorted, capacity, align, need, m);
        let best = best_region(sorted, capacity, align, need, m);
        let start = region_start(sorted, m);
        let end = region_end(sorted, capacity, m as int);
        let offset = round_up(start, align);
        if best is None && !(end > start && offset + need <= end) {
            assert forall|k: nat| k < n implies !(region_end(sorted, capacity, k as int)
                > #[trigger] region_start(sorted, k) && round_up(region_start(sorted, k), align)
                + need <= region_end(sorted, capacity, k as int)) by {
                if k == m {
                } else {
                    assert(k < m);
                }
            }
        }
    }
}

/// A resource that fits sits at an aligned offset inside the bucket, with its
/// padded size clear of every occupant that is live together with it.
pub proof fn law_fit_is_clear(
    r: AliasResource,
    occupants: Seq<(AliasResource, u64)>,
    capacity: u64,
    granularity: u64,
)
    requires
        granularity > 0,
        forall|i: int| 0 <= i < occupants.len() ==> (#[trigger] occupants[i]).1 <= capacity,
        fitting_offset(r, occupants, capacity, granularity) is Some,
    ensures
        ({
            let offset = fitting_offset(r, occupants, capacity, granularity)->0 as int;
            let need = round_up(r.size as int, granularity as int);
            &&& offset % (larger(r.alignment, granularity) as int) == 0
            &&& offset + need <= capacity
            &&& r.size <= need
            &&& forall|i: int|
                0 <= i < occupants.len() && live_together((#[trigger] occupants[i]).0, r)
                    ==> clear_of(occupants, i, granularity, offset, need)
        }),
{
    let g = granularity as int;
    let align = larger(r.alignment, granularity) as int;
    let need = round_up(r.size as int, g);
    let blocked = blocked_by(occupants, r, g);
    let sorted = ascending(blocked);
    let n = sorted.len() + 1;
    lemma_blocked_by(occupants, r, g);
    lemma_ascending(blocked);
    lemma_best_region(sorted, capacity as int, align, need, n);
    lemma_round_up(r.size as int, g);
    let (len, offset) = best_region(sorted, capacity as int, align, need, n)->0;
    let k = choose|k: nat|
        #![trigger region_start(sorted, k)]
        k < n && offset == round_up(region_start(sorted, k), align) && region_end(
            sorted,
            capacity as int,
            k as int,
        ) > region_start(sorted, k) && offset + need <= region_end(
            sorted,
            capacity as int,
            k as int,
        ) && len == region_end(sorted, capacity as int, k as int) - region_start(sorted, k);
    lemma_region_start(sorted, k);
    lemma_round_up(region_start(sorted, k), align);
    assert(region_end(sorted, capacity as int, k as int) <= capacity) by {
        if k < sorted.len() {
            assert(sorted.contains(sorted[k as int]));
            let b = choose|b: int| 0 <= b < blocked.len() && blocked[b] == sorted[k as int];
            assert(owned(occupants, r, g, blocked[b]));
            let i = choose|i: int| #[trigger] blocks(occupants, r, g, i, blocked[b]);
            assert(occupants[i].1 <= capacity);
        }
    }
    assert(offset <= u64::MAX);
    assert forall|i: int|
        0 <= i < occupants.len() && live_together((#[trigger] occupants[i]).0, r) implies clear_of(
        occupants,
        i,
        granularity,
        offset,
        need,
    ) by {
        let entry = (occupants[i].1 as int, block_end(occupants[i].1, occupants[i].0.size, g));
        assert(blocked.contains(entry));
        assert(sorted.contains(entry));
        let j = choose|j: int| 0 <= j < sorted.len() && sorted[j] == entry;
        if j < k {
            assert(sorted[j].1 <= region_start(sorted, k));
        } else if j > k {
            assert(sorted[k as int].0 <= sorted[j].0);
        }
    }
}

/// The first range of `sorted` that starts behind `o`.
spec fn first_behind(sorted: Seq<(int, int)>, o: int, from: int) -> int
    decreases sorted.len() - from,
{
    if from < 0 || from >= sorted.len() || sorted[from].0 > o {
        from
    } else {
        first_behind(sorted, o, from + 1)
    }
}

proof fn lemma_first_behind(sorted: Seq<(int, int)>, o: int, from: int)
    requires
        0 <= from <= sorted.len(),
        forall|j: int| 0 <= j < from ==> (#[trigger] sorted[j]).0 <= o,
    ensures
        from <= first_behind(sorted, o, from) <= sorted.len(),
        forall|j: int| 0 <= j < first_behind(sorted, o, from) ==> (#[trigger] sorted[j]).0 <= o,
        first_behind(sorted, o, from) < sorted.len() ==> sorted[first_behind(sorted, o, from)].0
            > o,
    decreases sorted.len() - from,
{
    if from < sorted.len() && sorted[from].0 <= o {
        lemma_first_behind(sorted, o, from + 1);
    }
}

/// A resource that does not fit has no place: wherever it would stand aligned inside
/// the bucket, an occupant that is live together with it is in the way.
pub proof fn law_no_fit_means_no_room(
    r: AliasResource,
    occupants: Seq<(AliasResource, u64)>,
    capacity: u64,
    granularity: u64,
    offset: int,
)
    requires
        granularity > 0,
        r.size > 0,
        forall|i: int| 0 <= i < occupants.len() ==> (#[trigger] occupants[i]).0.size > 0,
        forall|i: int|
            0 <= i < occupants.len() ==> (#[trigger] occupants[i]).1 < u64::MAX,
        fitting_offset(r, occupants, capacity, granularity) is None,
        offset >= 0,
        offset % (larger(r.alignment, granularity) as int) == 0,
        offset + round_up(r.size as int, granularity as int) <= capacity,
    ensures
        exists|i: int|
            0 <= i < occupants.len() && live_together((#[trigger] occupants[i]).0, r)
                && !clear_of(
                occupants,
                i,
                granularity,
                offset,
                round_up(r.size as int, granularity as int),
            ),
{
    let g = granularity as int;
    let align = larger(r.alignment, granularity) as int;
    let need = round_up(r.size as int, g);
    let blocked = blocked_by(occupants, r, g);
    let sorted = ascending(blocked);
    let n = sorted.len() + 1;
    lemma_blocked_by(occupants, r, g);
    lemma_ascending(blocked);
    lemma_best_region(sorted, capacity as int, align, need, n);
    lemma_round_up(r.size as int, g);
    if forall|i: int|
        0 <= i < occupants.len() && live_together((#[trigger] occupants[i]).0, r) ==> clear_of(
            occupants,
            i,
            granularity,
            offset,
            need,
        ) {
        assert forall|j: int| 0 <= j < sorted.len() implies (#[trigger] sorted[j]).0 < sorted[j].1
            && (offset + need <= sorted[j].0 || sorted[j].1 <= offset) by {
            assert(sorted.contains(sorted[j]));
            let b = choose|b: int| 0 <= b < blocked.len() && blocked[b] == sorted[j];
            assert(owned(occupants, r, g, blocked[b]));
            let i = choose|i: int| #[trigger] blocks(occupants, r, g, i, blocked[b]);
            assert(clear_of(occupants, i, granularity, offset, need));
            assert(occupants[i].0.size > 0);
            lemma_round_up(occupants[i].0.size as int, g);
        }
        lemma_first_behind(sorted, offset, 0);
        let k = first_behind(sorted, offset, 0) as nat;
        lemma_region_start(sorted, k);
        assert(region_start(sorted, k) <= offset) by {
            if region_start(sorted, k) != 0 {
                let j = choose|j: int|
                    0 <= j < k && (#[trigger] sorted[j]).1 == region_start(sorted, k);
                assert(sorted[j].0 <= offset);
            }
        }
        lemma_round_up_least(region_start(sorted, k), align, offset);
        assert(region_end(sorted, capacity as int, k as int) >= offset + need);
        assert(false);
    }
}

// ---------------------------------------------------------------------------
// What holds of one component
// ---------------------------------------------------------------------------

/// Bucket indices are 32 bits wide.
pub open spec fn indexable(buckets: Seq<BucketReqs>) -> bool {
    buckets.len() <= 0x1_0000_0000
}

/// A resource sits inside its bucket, at an aligned offset, in memory that suits it. A
/// resource that accepts no memory type at all is suited by none.
pub open spec fn placed_well(r: AliasResource, planned: PlanView, granularity: u64) -> bool {
    let p = planned.0[r.id];
    let bucket = planned.1[p.bucket as int];
    &&& planned.0.contains_key(r.id)
    &&& p.size == r.size
    &&& p.bucket < planned.1.len()
    &&& p.offset + p.size <= bucket.size
    &&& p.offset as int % (larger(r.alignment, granularity) as int) == 0
    &&& bucket.alignment >= r.alignment
    &&& bucket.location == r.location
    &&& r.memory_type_bits != 0 ==> bucket.memory_type_bits != 0
    &&& bucket.memory_type_bits & r.memory_type_bits == bucket.memory_type_bits
}

/// Two resources that are live together share no byte.
pub open spec fn kept_apart(a: AliasResource, b: AliasResource, planned: PlanView) -> bool {
    live_together(a, b) ==> !planned.0[a.id].meets(planned.0[b.id])
}

/// Some resource of `members` sits in the bucket, and is as large as the bucket.
pub open spec fn in_use(members: Seq<AliasResource>, planned: PlanView, bucket: int) -> bool {
    exists|i: int|
        0 <= i < members.len() && planned.0[(#[trigger] members[i]).id].bucket == bucket
            && members[i].size == planned.1[bucket].size
}

/// A bucket can be allocated: some memory type is left and the alignment is valid.
pub open spec fn allocatable(bucket: BucketReqs) -> bool {
    bucket.memory_type_bits != 0 && is_power_of_two(bucket.alignment)
}

/// Resources that a planner may be given: distinct ids, and alignments that are powers
/// of two.
pub open spec fn plannable(members: Seq<AliasResource>) -> bool {
    &&& forall|i: int|
        0 <= i < members.len() ==> is_power_of_two((#[trigger] members[i]).alignment)
    &&& forall|i: int, j: int| #![trigger members[i], members[j]]
        0 <= i < j < members.len() ==> members[i].id != members[j].id
}

/// Whether one of `members` has the id.
pub open spec fn lists(members: Seq<AliasResource>, id: u32) -> bool {
    exists|i: int| 0 <= i < members.len() && (#[trigger] members[i]).id == id
}

/// `out` leaves the buckets of `base` and the entries of other resources alone.
spec fn frame_kept(members: Seq<AliasResource>, base: PlanView, out: PlanView) -> bool {
    &&& base.1.len() <= out.1.len()
    &&& forall|b: int| 0 <= b < base.1.len() ==> #[trigger] out.1[b] == base.1[b]
    &&& forall|id: u32| !lists(members, id) ==> #[trigger] entry_kept(base, out, id)
}

/// `out` places `id` as `base` does, or not at all.
spec fn entry_kept(base: PlanView, out: PlanView, id: u32) -> bool {
    (out.0.contains_key(id) <==> base.0.contains_key(id)) && out.0[id] == base.0[id]
}

/// Every one of `members` is placed well behind the first `from` buckets.
spec fn members_settled(
    members: Seq<AliasResource>,
    from: int,
    out: PlanView,
    granularity: u64,
) -> bool {
    forall|i: int|
        0 <= i < members.len() ==> placed_well(#[trigger] members[i], out, granularity)
            && out.0[members[i].id].bucket >= from
}

/// No two of `members` get in each other's way.
spec fn members_apart(members: Seq<AliasResource>, out: PlanView) -> bool {
    forall|i: int, j: int| #![trigger members[i], members[j]]
        0 <= i < j < members.len() ==> kept_apart(members[i], members[j], out)
}

/// Every bucket behind the first `from` is aligned and holds one of `members`.
spec fn buckets_settled(members: Seq<AliasResource>, from: int, out: PlanView) -> bool {
    forall|b: int| from <= b < out.1.len() ==> #[trigger] bucket_settled(members, out, b)
}

/// The bucket is aligned and holds one of `members`.
spec fn bucket_settled(members: Seq<AliasResource>, out: PlanView, b: int) -> bool {
    is_power_of_two(out.1[b].alignment) && in_use(members, out, b)
}

/// `out` is `base` with `members` placed well into buckets of their own behind
/// those of `base`, and nothing else changed.
spec fn extends(
    members: Seq<AliasResource>,
    base: PlanView,
    out: PlanView,
    granularity: u64,
) -> bool {
    &&& frame_kept(members, base, out)
    &&& members_settled(members, base.1.len() as int, out, granularity)
    &&& members_apart(members, out)
    &&& buckets_settled(members, base.1.len() as int, out)
}

pub proof fn lemma_power_of_two_positive(x: u64)
    requires
        is_power_of_two(x),
    ensures
        x > 0,
{
    let k = choose|k: nat| x == #[trigger] vstd::arithmetic::power2::pow2(k);
    vstd::arithmetic::power2::lemma_pow2_pos(k);
}

proof fn lemma_mask_narrowed(b: u32, r: u32, m: u32)
    ensures
        (b & r) & r == b & r,
        (b & m == b) ==> (b & r) & m == b & r,
        r & r == r,
{
    assert((b & r) & r == b & r) by (bit_vector);
    assert((b & m == b) ==> (b & r) & m == b & r) by (bit_vector);
    assert(r & r == r) by (bit_vector);
}

proof fn lemma_index_fits(n: nat)
    requires
        n < 0x1_0000_0000,
    ensures
        (n as u32) as int == n,
{
}

/// `base` extended by a bucket for `r` alone.
proof fn lemma_sole(r: AliasResource, granularity: u64)
    requires
        is_power_of_two(r.alignment),
        granularity > 0,
    ensures
        is_power_of_two(sole(r).alignment),
        0int % (larger(r.alignment, granularity) as int) == 0,
        r.memory_type_bits & r.memory_type_bits == r.memory_type_bits,
{
    lemma_mask_narrowed(0, r.memory_type_bits, 0);
    lemma_power_of_two_positive(r.alignment);
    vstd::arithmetic::div_mod::lemma_mod_self_0(larger(r.alignment, granularity) as int);
    vstd::arithmetic::div_mod::lemma_small_mod(0, larger(r.alignment, granularity) as nat);
}

proof fn lemma_off_extends(members: Seq<AliasResource>, n: nat, base: PlanView, granularity: u64)
    requires
        n <= members.len(),
        granularity > 0,
        plannable(members),
        indexable(off_plan(members, n, base).1),
    ensures
        off_plan(members, n, base).1.len() == base.1.len() + n,
        extends(members.take(n as int), base, off_plan(members, n, base), granularity),
    decreases n,
{
    let some = members.take(n as int);
    let out = off_plan(members, n, base);
    if n > 0 {
        let m = (n - 1) as nat;
        let prev = off_plan(members, m, base);
        lemma_off_extends(members, m, base, granularity);
        let few = members.take(m as int);
        let r = members[n - 1];
        lemma_sole(r, granularity);
        lemma_index_fits(prev.1.len());
        assert forall|id: u32| !lists(some, id) implies !lists(few, id) && id != r.id by {
            if lists(few, id) {
                let i = choose|i: int| 0 <= i < few.len() && (#[trigger] few[i]).id == id;
                assert(some[i].id == id);
            }
            assert(some[n - 1] == r);
        }
        assert forall|i: int| 0 <= i < n implies placed_well(#[trigger] some[i], out, granularity)
            && out.0[some[i].id].bucket >= base.1.len() by {
            if i < m {
                assert(few[i] == some[i]);
                assert(members[i].id != members[n - 1].id);
            }
        }
        assert forall|i: int, j: int| #![trigger some[i], some[j]] 0 <= i < j < n implies kept_apart(
            some[i],
            some[j],
            out,
        ) by {
            assert(few[i] == some[i]);
            assert(members[i].id != members[n - 1].id);
            if j < m {
                assert(few[j] == some[j]);
                assert(members[j].id != members[n - 1].id);
            } else {
                assert(placed_well(few[i], prev, granularity));
            }
        }
        assert forall|b: int| base.1.len() <= b < out.1.len() implies #[trigger] bucket_settled(some, out, b) by {
            if b < prev.1.len() {
                assert(prev.1[b] == out.1[b]);
                assert(bucket_settled(few, prev, b));
                let i = choose|i: int|
                    0 <= i < few.len() && prev.0[(#[trigger] few[i]).id].bucket == b;
                assert(some[i] == few[i]);
                assert(members[i].id != members[n - 1].id);
            } else {
                assert(some[n - 1] == r);
            }
        }
        assert forall|id: u32| !lists(some, id) implies #[trigger] entry_kept(base, out, id) by {
            assert(!lists(few, id) && id != r.id);
            assert(entry_kept(base, prev, id));
        }
    }
}

/// What slot coloring keeps: one open bucket per bucket it added, in order, and
/// whoever was in a bucket before its current occupant is dead by pass `floor`.
spec fn slots_ok(
    members: Seq<AliasResource>,
    base: PlanView,
    state: (Seq<(usize, u32)>, PlanView),
    floor: int,
) -> bool {
    let (active, out) = state;
    &&& active.len() == out.1.len() - base.1.len()
    &&& forall|k: int| 0 <= k < active.len() ==> (#[trigger] active[k]).1 == base.1.len() + k
    &&& forall|i: int|
        0 <= i < members.len() ==> out.0[(#[trigger] members[i]).id].offset == 0 && (
        members[i].last_pass == active[out.0[members[i].id].bucket - base.1.len()].0
            || members[i].last_pass < floor)
}

proof fn lemma_first_fit(
    active: Seq<(usize, u32)>,
    buckets: Seq<BucketReqs>,
    r: AliasResource,
    from: int,
)
    requires
        0 <= from,
    ensures
        match first_fit(active, buckets, r, from) {
            Some(i) => from <= i < active.len() && active[i].0 < r.first_pass && admits(
                buckets[active[i].1 as int],
                r,
            ),
            None => true,
        },
    decreases active.len() - from,
{
    if from < active.len() && !(active[from].0 < r.first_pass && admits(
        buckets[active[from].1 as int],
        r,
    )) {
        lemma_first_fit(active, buckets, r, from + 1);
    }
}

proof fn lemma_slot_plan_grows(visit: Seq<AliasResource>, n: nat, base: PlanView)
    ensures
        base.1.len() <= slot_plan(visit, n, base).1.1.len() <= base.1.len() + n,
        n > 0 ==> slot_plan(visit, (n - 1) as nat, base).1.1.len() <= slot_plan(
            visit,
            n,
            base,
        ).1.1.len(),
        forall|k: int|
            0 <= k < slot_plan(visit, n, base).0.len() ==> (#[trigger] slot_plan(
                visit,
                n,
                base,
            ).0[k]).1 < slot_plan(visit, n, base).1.1.len(),
    decreases n,
{
    if n > 0 {
        lemma_slot_plan_grows(visit, (n - 1) as nat, base);
        let (active, planned) = slot_plan(visit, (n - 1) as nat, base);
        lemma_first_fit(active, planned.1, visit[n - 1], 0);
        let len = planned.1.len();
        assert((len as u32) <= len) by {
            if len < 0x1_0000_0000 {
                lemma_index_fits(len);
            }
        }
    }
}

#[verifier::spinoff_prover]
proof fn lemma_slot_extends(visit: Seq<AliasResource>, n: nat, base: PlanView, granularity: u64)
    requires
        n <= visit.len(),
        granularity > 0,
        plannable(visit),
        forall|i: int, j: int| #![trigger visit[i], visit[j]]
            0 <= i < j < visit.len() ==> visit[i].first_pass <= visit[j].first_pass,
        indexable(slot_plan(visit, n, base).1.1),
    ensures
        extends(visit.take(n as int), base, slot_plan(visit, n, base).1, granularity),
        slots_ok(
            visit.take(n as int),
            base,
            slot_plan(visit, n, base),
            if n > 0 {
                visit[n - 1].first_pass as int
            } else {
                0
            },
        ),
    decreases n,
{
    if n > 0 {
        let some = visit.take(n as int);
        let m = (n - 1) as nat;
        let few = visit.take(m as int);
        let state = slot_plan(visit, n, base);
        let (active, out) = state;
        let prev_state = slot_plan(visit, m, base);
        let (prev_active, prev) = prev_state;
        lemma_slot_plan_grows(visit, n, base);
        lemma_slot_extends(visit, m, base, granularity);
        let r = visit[n - 1];
        lemma_sole(r, granularity);
        lemma_first_fit(prev_active, prev.1, r, 0);
        let fit = first_fit(prev_active, prev.1, r, 0);
        let floor = r.first_pass as int;
        let prev_floor = if m > 0 {
            visit[m - 1].first_pass as int
        } else {
            0
        };
        assert(prev_floor <= floor) by {
            if m > 0 {
                assert(visit[m - 1].first_pass <= visit[n - 1].first_pass);
            }
        }
        assert(state == slot_step(prev_state, r));
        assert forall|id: u32| !lists(some, id) implies !lists(few, id) && id != r.id by {
            if lists(few, id) {
                let i = choose|i: int| 0 <= i < few.len() && (#[trigger] few[i]).id == id;
                assert(some[i].id == id);
            }
            assert(some[n - 1] == r);
        }
        assert forall|i: int| 0 <= i < m implies #[trigger] some[i] == few[i] && some[i].id != r.id
            && out.0[some[i].id] == prev.0[some[i].id] && placed_well(
            some[i],
            prev,
            granularity,
        ) && prev.0[some[i].id].bucket >= base.1.len() by {
            assert(few[i] == some[i]);
            assert(visit[i].id != visit[n - 1].id);
        }
        match fit {
            Some(at) => {
                let bucket = prev_active[at].1;
                let before = prev.1[bucket as int];
                let after = out.1[bucket as int];
                assert(bucket == base.1.len() + at);
                assert(after == grown(before, r));
                assert forall|i: int|
                    0 <= i < m && prev.0[(#[trigger] some[i]).id].bucket == bucket implies (
                some[i].last_pass < r.first_pass) && after.memory_type_bits
                    & some[i].memory_type_bits == after.memory_type_bits by {
                    assert(few[i] == some[i]);
                    lemma_mask_narrowed(
                        before.memory_type_bits,
                        r.memory_type_bits,
                        some[i].memory_type_bits,
                    );
                }
                lemma_mask_narrowed(before.memory_type_bits, r.memory_type_bits, 0);
            },
            None => {
                lemma_index_fits(prev.1.len());
            },
        }
        assert forall|i: int| 0 <= i < n implies placed_well(#[trigger] some[i], out, granularity)
            && out.0[some[i].id].bucket >= base.1.len() by {
            if i < m {
                assert(few[i] == some[i]);
            } else {
                assert(some[i] == r);
            }
        }
        assert forall|i: int, j: int| #![trigger some[i], some[j]] 0 <= i < j < n implies kept_apart(
            some[i],
            some[j],
            out,
        ) by {
            assert(few[i] == some[i]);
            if j < m {
                assert(few[j] == some[j]);
                assert(kept_apart(few[i], few[j], prev));
            } else {
                assert(some[j] == r);
            }
        }
        assert(buckets_settled(some, base.1.len() as int, out)) by {
            let from = base.1.len() as int;
            assert forall|b: int| from <= b < out.1.len() implies #[trigger] bucket_settled(some, out, b) by {
                if b < prev.1.len() {
                    assert(bucket_settled(few, prev, b));
                    let i = choose|i: int|
                        0 <= i < few.len() && prev.0[(#[trigger] few[i]).id].bucket == b;
                    assert(some[i] == few[i]);
                    assert(out.0[some[i].id].bucket == b);
                } else {
                    assert(some[n - 1] == r);
                    assert(out.0[some[n - 1].id].bucket == b);
                }
            }
        }
        assert forall|id: u32| !lists(some, id) implies #[trigger] entry_kept(base, out, id) by {
            assert(!lists(few, id) && id != r.id);
            assert(entry_kept(base, prev, id));
        }
        assert forall|b: int| 0 <= b < base.1.len() implies #[trigger] out.1[b] == base.1[b] by {
            assert(prev.1[b] == base.1[b]);
        }
        assert forall|i: int| 0 <= i < some.len() implies out.0[(#[trigger] some[i]).id].offset == 0
            && (some[i].last_pass == active[out.0[some[i].id].bucket - base.1.len()].0
            || some[i].last_pass < floor) by {
            if i < m {
                assert(few[i] == some[i]);
            } else {
                assert(some[i] == r);
            }
        }
        assert(frame_kept(some, base, out));
    }
}

/// The resources that sit in a bucket.
spec fn residents(occupants: Seq<(AliasResource, u64)>) -> Seq<AliasResource> {
    Seq::new(occupants.len(), |i: int| occupants[i].0)
}

/// What packing keeps of one bucket.
spec fn packed_well(
    occupants: Seq<(AliasResource, u64)>,
    bucket: BucketReqs,
    granularity: u64,
) -> bool {
    &&& is_power_of_two(bucket.alignment)
    &&& forall|i: int|
        0 <= i < occupants.len() ==> (#[trigger] occupants[i]).1 + occupants[i].0.size
            <= bucket.size && occupants[i].1 as int % (larger(
            occupants[i].0.alignment,
            granularity,
        ) as int) == 0 && bucket.alignment >= occupants[i].0.alignment && bucket.location
            == occupants[i].0.location && (occupants[i].0.memory_type_bits != 0
            ==> bucket.memory_type_bits != 0) && bucket.memory_type_bits
            & occupants[i].0.memory_type_bits == bucket.memory_type_bits
    &&& forall|i: int, j: int| #![trigger occupants[i], occupants[j]]
        0 <= i < j < occupants.len() && live_together(occupants[i].0, occupants[j].0) ==> (
        occupants[i].1 + occupants[i].0.size <= occupants[j].1 || occupants[j].1
            + occupants[j].0.size <= occupants[i].1)
}

/// `first` and `second` split up `all`.
spec fn splits(
    all: Seq<AliasResource>,
    first: Seq<AliasResource>,
    second: Seq<AliasResource>,
) -> bool {
    &&& plannable(first)
    &&& plannable(second)
    &&& forall|i: int| 0 <= i < first.len() ==> all.contains(#[trigger] first[i])
    &&& forall|i: int| 0 <= i < second.len() ==> all.contains(#[trigger] second[i])
    &&& forall|i: int|
        0 <= i < all.len() ==> first.contains(#[trigger] all[i]) || second.contains(all[i])
    &&& forall|i: int, j: int| #![trigger first[i], second[j]]
        0 <= i < first.len() && 0 <= j < second.len() ==> first[i].id != second[j].id
}

/// Adding one more resource to either side keeps a split.
proof fn lemma_splits_push(
    visit: Seq<AliasResource>,
    n: int,
    first: Seq<AliasResource>,
    second: Seq<AliasResource>,
    to_first: bool,
)
    requires
        plannable(visit),
        0 <= n < visit.len(),
        splits(visit.take(n), first, second),
    ensures
        splits(
            visit.take(n + 1),
            if to_first {
                first.push(visit[n])
            } else {
                first
            },
            if to_first {
                second
            } else {
                second.push(visit[n])
            },
        ),
{
    let some = visit.take(n);
    let more = visit.take(n + 1);
    let r = visit[n];
    let first2 = if to_first {
        first.push(r)
    } else {
        first
    };
    let second2 = if to_first {
        second
    } else {
        second.push(r)
    };
    assert forall|x: AliasResource| some.contains(x) implies x.id != r.id && #[trigger] more.contains(
        x,
    ) by {
        let k = choose|k: int| 0 <= k < some.len() && some[k] == x;
        assert(visit[k].id != visit[n].id);
        assert(more[k] == x);
    }
    assert(more[n] == r);
    assert(more.contains(r));
    assert forall|i: int| 0 <= i < first.len() implies (#[trigger] first[i]).id != r.id
        && more.contains(first[i]) by {
        assert(some.contains(first[i]));
    }
    assert forall|i: int| 0 <= i < second.len() implies (#[trigger] second[i]).id != r.id
        && more.contains(second[i]) by {
        assert(some.contains(second[i]));
    }
    assert forall|i: int| 0 <= i < first2.len() implies more.contains(#[trigger] first2[i]) by {
        if i < first.len() {
            assert(first2[i] == first[i]);
        }
    }
    assert forall|i: int| 0 <= i < second2.len() implies more.contains(#[trigger] second2[i]) by {
        if i < second.len() {
            assert(second2[i] == second[i]);
        }
    }
    assert forall|i: int| 0 <= i < more.len() implies first2.contains(#[trigger] more[i])
        || second2.contains(more[i]) by {
        if i < n {
            assert(some[i] == more[i]);
            if first.contains(some[i]) {
                let k = choose|k: int| 0 <= k < first.len() && first[k] == some[i];
                assert(first2[k] == some[i]);
            } else {
                let k = choose|k: int| 0 <= k < second.len() && second[k] == some[i];
                assert(second2[k] == some[i]);
            }
        } else if to_first {
            assert(first2[first.len() as int] == r);
        } else {
            assert(second2[second.len() as int] == r);
        }
    }
    assert forall|i: int, j: int| #![trigger first2[i], second2[j]]
        0 <= i < first2.len() && 0 <= j < second2.len() implies first2[i].id != second2[j].id by {
        if i < first.len() {
            assert(first2[i] == first[i]);
        }
        if j < second.len() {
            assert(second2[j] == second[j]);
        }
    }
    assert forall|i: int, j: int| #![trigger first2[i], first2[j]]
        0 <= i < j < first2.len() implies first2[i].id != first2[j].id by {
        assert(first2[i] == first[i]);
        if j < first.len() {
            assert(first2[j] == first[j]);
        }
    }
    assert forall|i: int, j: int| #![trigger second2[i], second2[j]]
        0 <= i < j < second2.len() implies second2[i].id != second2[j].id by {
        assert(second2[i] == second[i]);
        if j < second.len() {
            assert(second2[j] == second[j]);
        }
    }
    assert forall|i: int| 0 <= i < first2.len() implies is_power_of_two(
        (#[trigger] first2[i]).alignment,
    ) by {
        if i < first.len() {
            assert(first2[i] == first[i]);
        }
    }
    assert forall|i: int| 0 <= i < second2.len() implies is_power_of_two(
        (#[trigger] second2[i]).alignment,
    ) by {
        if i < second.len() {
            assert(second2[i] == second[i]);
        }
    }
}

proof fn lemma_pack_bucket(visit: Seq<AliasResource>, n: nat, granularity: u64)
    requires
        n < visit.len(),
        granularity > 0,
        plannable(visit),
    ensures
        ({
            let (occupants, bucket, left) = pack_bucket(
                visit[0],
                visit.drop_first(),
                n,
                granularity,
            );
            &&& occupants.len() > 0
            &&& occupants[0].0.size == bucket.size
            &&& packed_well(occupants, bucket, granularity)
            &&& splits(visit.take((n + 1) as int), residents(occupants), left)
        }),
    decreases n,
{
    let rest = visit.drop_first();
    let (occupants, bucket, left) = pack_bucket(visit[0], rest, n, granularity);
    if n == 0 {
        lemma_sole(visit[0], granularity);
        let nobody = Seq::<AliasResource>::empty();
        assert(splits(visit.take(0), nobody, nobody));
        lemma_splits_push(visit, 0, nobody, nobody, true);
        assert(residents(occupants) =~= nobody.push(visit[0]));
    } else {
        let m = (n - 1) as nat;
        lemma_pack_bucket(visit, m, granularity);
        let (prev, prev_bucket, prev_left) = pack_bucket(visit[0], rest, m, granularity);
        let r = rest[n - 1];
        assert(r == visit[n as int]);
        let fit = fitting_offset(r, prev, prev_bucket.size, granularity);
        if fit is Some && admits(prev_bucket, r) {
            let offset = fit->0;
            lemma_splits_push(visit, n as int, residents(prev), prev_left, true);
            assert(residents(occupants) =~= residents(prev).push(r));
            assert forall|i: int| 0 <= i < prev.len() implies (#[trigger] prev[i]).1
                <= prev_bucket.size by {}
            law_fit_is_clear(r, prev, prev_bucket.size, granularity);
            lemma_mask_narrowed(prev_bucket.memory_type_bits, r.memory_type_bits, 0);
            assert forall|i: int| 0 <= i < prev.len() implies bucket.memory_type_bits & (
            #[trigger] prev[i]).0.memory_type_bits == bucket.memory_type_bits by {
                lemma_mask_narrowed(
                    prev_bucket.memory_type_bits,
                    r.memory_type_bits,
                    prev[i].0.memory_type_bits,
                );
            }
            assert forall|i: int, j: int| #![trigger occupants[i], occupants[j]]
                0 <= i < j < occupants.len() && live_together(
                    occupants[i].0,
                    occupants[j].0,
                ) implies (occupants[i].1 + occupants[i].0.size <= occupants[j].1
                || occupants[j].1 + occupants[j].0.size <= occupants[i].1) by {
                assert(occupants[i] == prev[i]);
                if j < prev.len() {
                    assert(occupants[j] == prev[j]);
                } else {
                    assert(live_together(prev[i].0, r));
                    assert(clear_of(
                        prev,
                        i,
                        granularity,
                        offset as int,
                        round_up(r.size as int, granularity as int),
                    ));
                    lemma_round_up(prev[i].0.size as int, granularity as int);
                }
            }
            assert forall|i: int| 0 <= i < occupants.len() implies (#[trigger] occupants[i]).1
                + occupants[i].0.size <= bucket.size && occupants[i].1 as int % (larger(
                occupants[i].0.alignment,
                granularity,
            ) as int) == 0 && bucket.alignment >= occupants[i].0.alignment && bucket.location
                == occupants[i].0.location && (occupants[i].0.memory_type_bits != 0
                ==> bucket.memory_type_bits != 0) && bucket.memory_type_bits
                & occupants[i].0.memory_type_bits == bucket.memory_type_bits by {
                if i < prev.len() {
                    assert(occupants[i] == prev[i]);
                } else {
                    assert(occupants[i] == (r, offset));
                }
            }
        } else {
            lemma_splits_push(visit, n as int, residents(prev), prev_left, false);
        }
    }
}

/// Entering a bucket's occupants changes exactly their entries.
proof fn lemma_place_occupants(
    placements: Map<u32, Placement>,
    bucket: u32,
    occupants: Seq<(AliasResource, u64)>,
    n: nat,
)
    requires
        n <= occupants.len(),
        plannable(residents(occupants)),
    ensures
        forall|i: int|
            0 <= i < n ==> place_occupants(placements, bucket, occupants, n).contains_key(
                (#[trigger] occupants[i]).0.id,
            ) && place_occupants(placements, bucket, occupants, n)[occupants[i].0.id]
                == (Placement { bucket, offset: occupants[i].1, size: occupants[i].0.size }),
        forall|id: u32|
            !lists(residents(occupants).take(n as int), id) ==> (#[trigger] place_occupants(
                placements,
                bucket,
                occupants,
                n,
            ).contains_key(id) <==> placements.contains_key(id)) && place_occupants(
                placements,
                bucket,
                occupants,
                n,
            )[id] == placements[id],
    decreases n,
{
    if n > 0 {
        let m = (n - 1) as nat;
        lemma_place_occupants(placements, bucket, occupants, m);
        let all = residents(occupants);
        let out = place_occupants(placements, bucket, occupants, n);
        let prev = place_occupants(placements, bucket, occupants, m);
        let (r, offset) = occupants[n - 1];
        assert forall|i: int| 0 <= i < n implies out.contains_key((#[trigger] occupants[i]).0.id)
            && out[occupants[i].0.id] == (Placement {
            bucket,
            offset: occupants[i].1,
            size: occupants[i].0.size,
        }) by {
            if i < m {
                assert(all[i].id != all[n - 1].id);
            }
        }
        assert forall|id: u32| !lists(all.take(n as int), id) implies (#[trigger] out.contains_key(
            id,
        ) <==> placements.contains_key(id)) && out[id] == placements[id] by {
            assert(all.take(n as int)[n - 1] == r);
            assert(id != r.id);
            if lists(all.take(m as int), id) {
                let i = choose|i: int|
                    0 <= i < all.take(m as int).len() && (#[trigger] all.take(m as int)[i]).id
                        == id;
                assert(all.take(n as int)[i].id == id);
            }
            assert(prev.contains_key(id) <==> placements.contains_key(id));
        }
    }
}

/// Two extensions of a plan one after the other extend it by both.
proof fn lemma_extends_twice(
    all: Seq<AliasResource>,
    first: Seq<AliasResource>,
    second: Seq<AliasResource>,
    base: PlanView,
    mid: PlanView,
    out: PlanView,
    granularity: u64,
)
    requires
        plannable(all),
        splits(all, first, second),
        extends(first, base, mid, granularity),
        extends(second, mid, out, granularity),
    ensures
        extends(all, base, out, granularity),
{
    assert forall|i: int| 0 <= i < first.len() implies placed_well(
        #[trigger] first[i],
        out,
        granularity,
    ) && base.1.len() <= out.0[first[i].id].bucket < mid.1.len() && out.0[first[i].id]
        == mid.0[first[i].id] by {
        assert(!lists(second, first[i].id)) by {
            if lists(second, first[i].id) {
                let j = choose|j: int|
                    0 <= j < second.len() && (#[trigger] second[j]).id == first[i].id;
                assert(first[i].id != second[j].id);
            }
        }
        assert(placed_well(first[i], mid, granularity));
        assert(entry_kept(mid, out, first[i].id));
        assert(out.1[mid.0[first[i].id].bucket as int] == mid.1[mid.0[first[i].id].bucket as int]);
    }
    assert forall|i: int| 0 <= i < all.len() implies placed_well(#[trigger] all[i], out, granularity)
        && out.0[all[i].id].bucket >= base.1.len() by {
        if first.contains(all[i]) {
            let k = choose|k: int| 0 <= k < first.len() && first[k] == all[i];
            assert(placed_well(first[k], out, granularity));
        } else {
            let k = choose|k: int| 0 <= k < second.len() && second[k] == all[i];
            assert(placed_well(second[k], out, granularity));
        }
    }
    assert forall|i: int, j: int| #![trigger all[i], all[j]] 0 <= i < j < all.len() implies kept_apart(
        all[i],
        all[j],
        out,
    ) by {
        assert(all[i].id != all[j].id);
        if first.contains(all[i]) {
            let a = choose|a: int| 0 <= a < first.len() && first[a] == all[i];
            if first.contains(all[j]) {
                let b = choose|b: int| 0 <= b < first.len() && first[b] == all[j];
                assert(placed_well(first[a], out, granularity));
                assert(placed_well(first[b], out, granularity));
                if a < b {
                    assert(kept_apart(first[a], first[b], mid));
                } else {
                    assert(kept_apart(first[b], first[a], mid));
                }
            } else {
                let b = choose|b: int| 0 <= b < second.len() && second[b] == all[j];
                assert(placed_well(first[a], out, granularity));
                assert(placed_well(second[b], out, granularity));
            }
        } else {
            let a = choose|a: int| 0 <= a < second.len() && second[a] == all[i];
            assert(placed_well(second[a], out, granularity));
            if first.contains(all[j]) {
                let b = choose|b: int| 0 <= b < first.len() && first[b] == all[j];
                assert(placed_well(first[b], out, granularity));
            } else {
                let b = choose|b: int| 0 <= b < second.len() && second[b] == all[j];
                if a < b {
                    assert(kept_apart(second[a], second[b], out));
                } else {
                    assert(kept_apart(second[b], second[a], out));
                }
            }
        }
    }
    assert forall|id: u32| !lists(all, id) implies !lists(first, id) && !lists(second, id) by {
        if lists(first, id) {
            let k = choose|k: int| 0 <= k < first.len() && (#[trigger] first[k]).id == id;
            assert(all.contains(first[k]));
            let i = choose|i: int| 0 <= i < all.len() && all[i] == first[k];
            assert(all[i].id == id);
        }
        if lists(second, id) {
            let k = choose|k: int| 0 <= k < second.len() && (#[trigger] second[k]).id == id;
            assert(all.contains(second[k]));
            let i = choose|i: int| 0 <= i < all.len() && all[i] == second[k];
            assert(all[i].id == id);
        }
    }
    assert forall|id: u32| !lists(all, id) implies #[trigger] entry_kept(base, out, id) by {
        assert(!lists(first, id) && !lists(second, id));
        assert(entry_kept(base, mid, id));
        assert(entry_kept(mid, out, id));
    }
    assert forall|b: int| 0 <= b < base.1.len() implies #[trigger] out.1[b] == base.1[b] by {
        assert(mid.1[b] == base.1[b]);
    }
    assert forall|b: int| base.1.len() <= b < out.1.len() implies #[trigger] bucket_settled(all, out, b) by {
        if b < mid.1.len() {
            assert(out.1[b] == mid.1[b]);
            assert(bucket_settled(first, mid, b));
            let k = choose|k: int|
                0 <= k < first.len() && mid.0[(#[trigger] first[k]).id].bucket == b;
            assert(placed_well(first[k], out, granularity));
            assert(all.contains(first[k]));
            let i = choose|i: int| 0 <= i < all.len() && all[i] == first[k];
            assert(out.0[all[i].id].bucket == b);
        } else {
            assert(bucket_settled(second, out, b));
            let k = choose|k: int|
                0 <= k < second.len() && out.0[(#[trigger] second[k]).id].bucket == b;
            assert(all.contains(second[k]));
            let i = choose|i: int| 0 <= i < all.len() && all[i] == second[k];
            assert(out.0[all[i].id].bucket == b);
        }
    }
}

proof fn lemma_bucket_plan_grows(visit: Seq<AliasResource>, granularity: u64, base: PlanView)
    ensures
        base.1.len() <= bucket_plan(visit, granularity, base).1.len() <= base.1.len()
            + visit.len(),
        visit.len() > 0 ==> base.1.len() < bucket_plan(visit, granularity, base).1.len(),
    decreases visit.len(),
{
    if visit.len() > 0 {
        let rest = visit.drop_first();
        let (occupants, bucket, left) = pack_bucket(visit[0], rest, rest.len(), granularity);
        crate::render_graph::alias::lemma_pack_bucket_leaves_fewer(
            visit[0],
            rest,
            rest.len(),
            granularity,
        );
        lemma_bucket_plan_grows(
            left,
            granularity,
            (
                place_occupants(base.0, base.1.len() as u32, occupants, occupants.len()),
                base.1.push(bucket),
            ),
        );
    }
}

proof fn lemma_bucket_extends(visit: Seq<AliasResource>, granularity: u64, base: PlanView)
    requires
        granularity > 0,
        plannable(visit),
        indexable(bucket_plan(visit, granularity, base).1),
    ensures
        extends(visit, base, bucket_plan(visit, granularity, base), granularity),
    decreases visit.len(),
{
    if visit.len() > 0 {
        let rest = visit.drop_first();
        let n = rest.len();
        let (occupants, bucket, left) = pack_bucket(visit[0], rest, n, granularity);
        lemma_pack_bucket(visit, n, granularity);
        assert(visit.take((n + 1) as int) =~= visit);
        crate::render_graph::alias::lemma_pack_bucket_leaves_fewer(visit[0], rest, n, granularity);
        lemma_bucket_plan_grows(visit, granularity, base);
        lemma_index_fits(base.1.len());
        let index = base.1.len() as u32;
        let mid = (
            place_occupants(base.0, index, occupants, occupants.len()),
            base.1.push(bucket),
        );
        let out = bucket_plan(visit, granularity, base);
        assert(out == bucket_plan(left, granularity, mid));
        lemma_bucket_extends(left, granularity, mid);
        lemma_place_occupants(base.0, index, occupants, occupants.len());
        let first = residents(occupants);
        assert(first.take(occupants.len() as int) =~= first);
        assert(extends(first, base, mid, granularity)) by {
            assert forall|i: int| 0 <= i < first.len() implies placed_well(
                #[trigger] first[i],
                mid,
                granularity,
            ) && mid.0[first[i].id].bucket >= base.1.len() by {
                assert(first[i] == occupants[i].0);
            }
            assert forall|i: int, j: int| #![trigger first[i], first[j]]
                0 <= i < j < first.len() implies kept_apart(first[i], first[j], mid) by {
                assert(first[i] == occupants[i].0);
                assert(first[j] == occupants[j].0);
            }
            assert forall|b: int| base.1.len() <= b < mid.1.len() implies #[trigger] bucket_settled(first, mid, b) by {
                assert(first[0] == occupants[0].0);
                assert(mid.0[first[0].id].bucket == b);
            }
        }
        lemma_extends_twice(visit, first, left, base, mid, out, granularity);
    }
}

// ---------------------------------------------------------------------------
// What holds of a whole plan
// ---------------------------------------------------------------------------

/// `arranged` lists the same resources, and by start where it does not go by size.
proof fn lemma_arranged(members: Seq<AliasResource>, largest_first: bool)
    requires
        plannable(members),
    ensures
        splits(members, arranged(members, largest_first), Seq::empty()),
        arranged(members, largest_first).len() == members.len(),
        !largest_first ==> forall|i: int, j: int|
            0 <= i < j < members.len() ==> (#[trigger] arranged(members, false)[i]).first_pass <= (
            #[trigger] arranged(members, false)[j]).first_pass,
{
    let keys = visit_keys(members, largest_first);
    let order = stable_order(keys);
    let visit = arranged(members, largest_first);
    lemma_stable_order(keys);
    assert forall|i: int| 0 <= i < visit.len() implies members.contains(#[trigger] visit[i]) by {
        assert(members[order[i]] == visit[i]);
    }
    assert forall|i: int| 0 <= i < members.len() implies visit.contains(#[trigger] members[i]) by {
        assert(order.contains(i));
        let k = choose|k: int| 0 <= k < order.len() && order[k] == i;
        assert(visit[k] == members[i]);
    }
    assert forall|i: int, j: int| #![trigger visit[i], visit[j]] 0 <= i < j < visit.len() implies visit[i].id
        != visit[j].id by {
        let a = order[i];
        let b = order[j];
        assert(a != b);
        if a < b {
            assert(members[a].id != members[b].id);
        } else {
            assert(members[b].id != members[a].id);
        }
    }
    assert forall|i: int| 0 <= i < visit.len() implies is_power_of_two(
        (#[trigger] visit[i]).alignment,
    ) by {
        assert(visit[i] == members[order[i]]);
    }
    if !largest_first {
        assert forall|i: int, j: int| 0 <= i < j < members.len() implies (
        #[trigger] visit[i]).first_pass <= (#[trigger] visit[j]).first_pass by {
            assert(!pair_lt(keys[order[j]], keys[order[i]]));
        }
    }
}

proof fn lemma_component_extends(
    strategy: AliasStrategy,
    members: Seq<AliasResource>,
    granularity: u64,
    base: PlanView,
)
    requires
        granularity > 0,
        plannable(members),
        indexable(component_plan(strategy, members, granularity, base).1),
    ensures
        extends(members, base, component_plan(strategy, members, granularity, base), granularity),
{
    let out = component_plan(strategy, members, granularity, base);
    let nobody = Seq::<AliasResource>::empty();
    match strategy {
        AliasStrategy::Off => {
            lemma_off_extends(members, members.len(), base, granularity);
            assert(members.take(members.len() as int) =~= members);
        },
        AliasStrategy::Slot => {
            let visit = arranged(members, false);
            lemma_arranged(members, false);
            lemma_slot_extends(visit, members.len(), base, granularity);
            assert(visit.take(members.len() as int) =~= visit);
            lemma_extends_twice(members, visit, nobody, base, out, out, granularity);
        },
        AliasStrategy::Bucket => {
            let visit = arranged(members, true);
            lemma_arranged(members, true);
            lemma_bucket_extends(visit, granularity, base);
            lemma_extends_twice(members, visit, nobody, base, out, out, granularity);
        },
    }
}

proof fn lemma_component_grows(
    strategy: AliasStrategy,
    members: Seq<AliasResource>,
    granularity: u64,
    base: PlanView,
)
    ensures
        base.1.len() <= component_plan(strategy, members, granularity, base).1.len()
            <= base.1.len() + members.len(),
{
    match strategy {
        AliasStrategy::Off => lemma_off_plan_grows(members, members.len(), base),
        AliasStrategy::Slot => lemma_slot_plan_grows(
            arranged(members, false),
            members.len(),
            base,
        ),
        AliasStrategy::Bucket => lemma_bucket_plan_grows(
            arranged(members, true),
            granularity,
            base,
        ),
    }
}

proof fn lemma_off_plan_grows(members: Seq<AliasResource>, n: nat, base: PlanView)
    ensures
        base.1.len() <= off_plan(members, n, base).1.len() <= base.1.len() + n,
    decreases n,
{
    if n > 0 {
        lemma_off_plan_grows(members, (n - 1) as nat, base);
    }
}

/// Whether a component lists the id.
pub open spec fn grouped_in(components: Seq<Vec<u32>>, c: int, id: u32) -> bool {
    0 <= c < components.len() && components[c]@.contains(id)
}

/// Whether some component lists the id.
pub open spec fn grouped(components: Seq<Vec<u32>>, id: u32) -> bool {
    exists|c: int| #[trigger] grouped_in(components, c, id)
}

/// No id is listed twice, neither in one component nor in two.
pub open spec fn listed_once(components: Seq<Vec<u32>>) -> bool {
    &&& forall|c: int| 0 <= c < components.len() ==> (#[trigger] components[c])@.no_duplicates()
    &&& forall|c: int, d: int, id: u32|
        #![trigger grouped_in(components, c, id), grouped_in(components, d, id)]
        grouped_in(components, c, id) && grouped_in(components, d, id) ==> c == d
}

proof fn lemma_with_id(resources: Seq<AliasResource>, id: u32)
    ensures
        match with_id(resources, id) {
            Some(r) => r.id == id && resources.contains(r),
            None => !lists(resources, id),
        },
    decreases resources.len(),
{
    if resources.len() > 0 {
        let rest = resources.drop_last();
        let n = resources.len() - 1;
        lemma_with_id(rest, id);
        assert(resources[n] == resources.last());
        if resources.last().id != id {
            match with_id(rest, id) {
                Some(r) => {
                    let k = choose|k: int| 0 <= k < rest.len() && rest[k] == r;
                    assert(resources[k] == r);
                },
                None => {
                    if lists(resources, id) {
                        let k = choose|k: int|
                            0 <= k < resources.len() && (#[trigger] resources[k]).id == id;
                        assert(rest[k].id == id);
                    }
                },
            }
        }
    }
}

proof fn lemma_members_of(resources: Seq<AliasResource>, component: Seq<u32>)
    requires
        plannable(resources),
        component.no_duplicates(),
    ensures
        plannable(members_of(resources, component)),
        forall|i: int|
            0 <= i < members_of(resources, component).len() ==> resources.contains(
                #[trigger] members_of(resources, component)[i],
            ) && component.contains(members_of(resources, component)[i].id),
        forall|i: int|
            0 <= i < resources.len() && component.contains((#[trigger] resources[i]).id)
                ==> members_of(resources, component).contains(resources[i]),
    decreases component.len(),
{
    if component.len() > 0 {
        let rest = component.drop_last();
        let n = component.len() - 1;
        let id = component.last();
        assert(component[n] == id);
        assert forall|a: int, b: int| 0 <= a < rest.len() && 0 <= b < rest.len() && a != b implies rest[a]
            != rest[b] by {
            assert(component[a] != component[b]);
        }
        lemma_members_of(resources, rest);
        lemma_with_id(resources, id);
        let few = members_of(resources, rest);
        let all = members_of(resources, component);
        assert forall|i: int| 0 <= i < few.len() implies component.contains(
            (#[trigger] few[i]).id,
        ) && few[i].id != id by {
            assert(rest.contains(few[i].id));
            let k = choose|k: int| 0 <= k < rest.len() && rest[k] == few[i].id;
            assert(component[k] == few[i].id);
        }
        assert forall|i: int| 0 <= i < all.len() implies resources.contains(#[trigger] all[i])
            && component.contains(all[i].id) by {
            if i < few.len() {
                assert(all[i] == few[i]);
            }
        }
        assert forall|i: int| 0 <= i < all.len() implies is_power_of_two(
            (#[trigger] all[i]).alignment,
        ) by {
            assert(resources.contains(all[i]));
            let k = choose|k: int| 0 <= k < resources.len() && resources[k] == all[i];
            assert(is_power_of_two(resources[k].alignment));
        }
        assert forall|i: int, j: int| #![trigger all[i], all[j]] 0 <= i < j < all.len() implies all[i].id
            != all[j].id by {
            assert(all[i] == few[i]);
            if j < few.len() {
                assert(all[j] == few[j]);
            }
        }
        assert forall|i: int|
            0 <= i < resources.len() && component.contains(
                (#[trigger] resources[i]).id,
            ) implies all.contains(resources[i]) by {
            let r = resources[i];
            if r.id == id {
                let x = with_id(resources, id)->0;
                assert(lists(resources, id));
                let k = choose|k: int| 0 <= k < resources.len() && resources[k] == x;
                if k < i {
                    assert(resources[k].id != resources[i].id);
                }
                if i < k {
                    assert(resources[i].id != resources[k].id);
                }
                assert(all[all.len() - 1] == r);
            } else {
                let k = choose|k: int| 0 <= k < component.len() && component[k] == r.id;
                assert(rest[k] == r.id);
                assert(few.contains(r));
                let m = choose|m: int| 0 <= m < few.len() && few[m] == r;
                assert(all[m] == r);
            }
        }
    }
}

/// The resources of the first `n` components, one after the other.
spec fn members_up_to(
    resources: Seq<AliasResource>,
    components: Seq<Vec<u32>>,
    n: nat,
) -> Seq<AliasResource>
    decreases n,
{
    if n == 0 {
        Seq::empty()
    } else {
        members_up_to(resources, components, (n - 1) as nat) + members_of(
            resources,
            components[n - 1]@,
        )
    }
}

spec fn in_first(components: Seq<Vec<u32>>, n: int, id: u32) -> bool {
    exists|c: int| #[trigger] grouped_in(components, c, id) && c < n
}

proof fn lemma_members_up_to(
    resources: Seq<AliasResource>,
    components: Seq<Vec<u32>>,
    n: nat,
)
    requires
        plannable(resources),
        listed_once(components),
        n <= components.len(),
    ensures
        plannable(members_up_to(resources, components, n)),
        forall|i: int|
            0 <= i < members_up_to(resources, components, n).len() ==> resources.contains(
                #[trigger] members_up_to(resources, components, n)[i],
            ) && in_first(components, n as int, members_up_to(resources, components, n)[i].id),
        forall|i: int|
            0 <= i < resources.len() && in_first(components, n as int, (#[trigger] resources[i]).id)
                ==> members_up_to(resources, components, n).contains(resources[i]),
        n > 0 ==> splits(
            members_up_to(resources, components, n),
            members_up_to(resources, components, (n - 1) as nat),
            members_of(resources, components[n - 1]@),
        ),
    decreases n,
{
    if n > 0 {
        let m = (n - 1) as nat;
        lemma_members_up_to(resources, components, m);
        let few = members_up_to(resources, components, m);
        let last = members_of(resources, components[n - 1]@);
        let all = members_up_to(resources, components, n);
        lemma_members_of(resources, components[n - 1]@);
        assert forall|i: int| 0 <= i < few.len() implies #[trigger] all[i] == few[i] by {}
        assert forall|i: int| 0 <= i < last.len() implies all[few.len() + i] == #[trigger] last[i] by {}
        assert forall|i: int| 0 <= i < few.len() implies all.contains(#[trigger] few[i]) by {
            assert(all[i] == few[i]);
        }
        assert forall|i: int| 0 <= i < last.len() implies all.contains(#[trigger] last[i]) by {
            assert(all[few.len() + i] == last[i]);
        }
        assert forall|i: int, j: int| #![trigger few[i], last[j]]
            0 <= i < few.len() && 0 <= j < last.len() implies few[i].id != last[j].id by {
            assert(in_first(components, m as int, few[i].id));
            let c = choose|c: int| #[trigger] grouped_in(components, c, few[i].id) && c < m;
            if few[i].id == last[j].id {
                assert(components[n - 1]@.contains(last[j].id));
                assert(grouped_in(components, n - 1, few[i].id));
            }
        }
        assert forall|i: int| 0 <= i < all.len() implies few.contains(#[trigger] all[i])
            || last.contains(all[i]) by {
            if i < few.len() {
                assert(few[i] == all[i]);
            } else {
                assert(last[i - few.len()] == all[i]);
            }
        }
        assert forall|i: int, j: int| #![trigger all[i], all[j]] 0 <= i < j < all.len() implies all[i].id
            != all[j].id by {
            if j < few.len() {
                assert(all[i] == few[i] && all[j] == few[j]);
            } else if i < few.len() {
                assert(all[i] == few[i] && all[j] == last[j - few.len()]);
            } else {
                assert(all[i] == last[i - few.len()] && all[j] == last[j - few.len()]);
            }
        }
        assert forall|i: int| 0 <= i < all.len() implies is_power_of_two(
            (#[trigger] all[i]).alignment,
        ) && resources.contains(all[i]) && in_first(
            components,
            n as int,
            all[i].id,
        ) by {
            if i < few.len() {
                assert(all[i] == few[i]);
                let c = choose|c: int| #[trigger] grouped_in(components, c, few[i].id) && c < m;
                assert(grouped_in(components, c, all[i].id) && c < n);
            } else {
                assert(all[i] == last[i - few.len()]);
                assert(grouped_in(components, n - 1, all[i].id));
            }
        }
        assert forall|i: int|
            0 <= i < resources.len() && in_first(
                components,
                n as int,
                (#[trigger] resources[i]).id,
            ) implies all.contains(resources[i]) by {
            let c = choose|c: int| #[trigger] grouped_in(components, c, resources[i].id) && c < n;
            if c < m {
                assert(in_first(components, m as int, resources[i].id));
                assert(few.contains(resources[i]));
                let k = choose|k: int| 0 <= k < few.len() && few[k] == resources[i];
                assert(all[k] == resources[i]);
            } else {
                assert(last.contains(resources[i]));
                let k = choose|k: int| 0 <= k < last.len() && last[k] == resources[i];
                assert(all[few.len() + k] == resources[i]);
            }
        }
    }
}

proof fn lemma_plan_grows(
    strategy: AliasStrategy,
    resources: Seq<AliasResource>,
    components: Seq<Vec<u32>>,
    granularity: u64,
    n: nat,
    m: nat,
)
    requires
        n <= m,
    ensures
        plan_of(strategy, resources, components, granularity, n).1.len() <= plan_of(
            strategy,
            resources,
            components,
            granularity,
            m,
        ).1.len(),
    decreases m,
{
    if n < m {
        lemma_plan_grows(strategy, resources, components, granularity, n, (m - 1) as nat);
        lemma_component_grows(
            strategy,
            members_of(resources, components[m - 1]@),
            granularity,
            plan_of(strategy, resources, components, granularity, (m - 1) as nat),
        );
    }
}

proof fn lemma_plan_extends(
    strategy: AliasStrategy,
    resources: Seq<AliasResource>,
    components: Seq<Vec<u32>>,
    granularity: u64,
    n: nat,
)
    requires
        granularity > 0,
        plannable(resources),
        listed_once(components),
        n <= components.len(),
        indexable(plan_of(strategy, resources, components, granularity, n).1),
    ensures
        extends(
            members_up_to(resources, components, n),
            (Map::empty(), Seq::empty()),
            plan_of(strategy, resources, components, granularity, n),
            granularity,
        ),
    decreases n,
{
    let base: PlanView = (Map::empty(), Seq::empty());
    if n > 0 {
        let m = (n - 1) as nat;
        let mid = plan_of(strategy, resources, components, granularity, m);
        let members = members_of(resources, components[n - 1]@);
        lemma_plan_grows(strategy, resources, components, granularity, m, n);
        lemma_plan_extends(strategy, resources, components, granularity, m);
        lemma_members_up_to(resources, components, n);
        lemma_members_of(resources, components[n - 1]@);
        lemma_component_extends(strategy, members, granularity, mid);
        lemma_extends_twice(
            members_up_to(resources, components, n),
            members_up_to(resources, components, m),
            members,
            base,
            mid,
            plan_of(strategy, resources, components, granularity, n),
            granularity,
        );
    }
}

/// What `plan` returns.
pub open spec fn whole_plan(
    strategy: AliasStrategy,
    resources: Seq<AliasResource>,
    components: Seq<Vec<u32>>,
    granularity: u64,
) -> PlanView {
    plan_of(strategy, resources, components, larger(granularity, 1), components.len())
}

/// Inputs on which a plan can be relied upon: resources that can be told apart and
/// aligned, and ids listed at most once.
pub open spec fn plan_input(resources: Seq<AliasResource>, components: Seq<Vec<u32>>) -> bool {
    plannable(resources) && listed_once(components)
}

proof fn lemma_buckets_have_members(
    strategy: AliasStrategy,
    resources: Seq<AliasResource>,
    components: Seq<Vec<u32>>,
    granularity: u64,
    n: nat,
)
    ensures
        plan_of(strategy, resources, components, granularity, n).1.len() <= members_up_to(
            resources,
            components,
            n,
        ).len(),
    decreases n,
{
    if n > 0 {
        lemma_buckets_have_members(strategy, resources, components, granularity, (n - 1) as nat);
        lemma_component_grows(
            strategy,
            members_of(resources, components[n - 1]@),
            granularity,
            plan_of(strategy, resources, components, granularity, (n - 1) as nat),
        );
    }
}

/// There are never more buckets than resources, so an index of 32 bits finds each.
pub proof fn law_plans_are_indexable(
    strategy: AliasStrategy,
    resources: Seq<AliasResource>,
    components: Seq<Vec<u32>>,
    granularity: u64,
)
    requires
        plan_input(resources, components),
    ensures
        indexable(whole_plan(strategy, resources, components, granularity).1),
{
    let n = components.len();
    let all = members_up_to(resources, components, n);
    lemma_buckets_have_members(strategy, resources, components, larger(granularity, 1), n);
    lemma_members_up_to(resources, components, n);
    let ids = Seq::new(all.len(), |i: int| all[i].id as int);
    assert forall|i: int, j: int| 0 <= i < j < ids.len() implies ids[i] != ids[j] by {
        assert(all[i].id != all[j].id);
    }
    lemma_distinct_below(ids, 0x1_0000_0000);
}

/// Every resource that a component lists gets exactly one placement: of its own
/// size, inside its bucket, aligned, in a heap and a memory type that suit it.
/// Nothing else is placed.
pub proof fn law_every_grouped_resource_is_placed_well(
    strategy: AliasStrategy,
    resources: Seq<AliasResource>,
    components: Seq<Vec<u32>>,
    granularity: u64,
)
    requires
        plan_input(resources, components),
    ensures
        ({
            let planned = whole_plan(strategy, resources, components, granularity);
            &&& forall|i: int|
                0 <= i < resources.len() && grouped(components, (#[trigger] resources[i]).id)
                    ==> placed_well(resources[i], planned, larger(granularity, 1))
            &&& forall|id: u32| #[trigger]
                planned.0.contains_key(id) <==> grouped(components, id) && lists(resources, id)
        }),
{
    law_plans_are_indexable(strategy, resources, components, granularity);
    let n = components.len();
    let planned = whole_plan(strategy, resources, components, granularity);
    let all = members_up_to(resources, components, n);
    lemma_plan_extends(strategy, resources, components, larger(granularity, 1), n);
    lemma_members_up_to(resources, components, n);
    assert forall|i: int|
        0 <= i < resources.len() && grouped(
            components,
            (#[trigger] resources[i]).id,
        ) implies all.contains(resources[i]) && placed_well(
        resources[i],
        planned,
        larger(granularity, 1),
    ) by {
        let c = choose|c: int| #[trigger] grouped_in(components, c, resources[i].id);
        assert(in_first(components, n as int, resources[i].id));
        assert(all.contains(resources[i]));
        let k = choose|k: int| 0 <= k < all.len() && all[k] == resources[i];
        assert(placed_well(all[k], planned, larger(granularity, 1)));
    }
    assert forall|id: u32| #[trigger] planned.0.contains_key(id) <==> grouped(components, id)
        && lists(resources, id) by {
        if planned.0.contains_key(id) {
            assert(lists(all, id)) by {
                if !lists(all, id) {
                    assert(entry_kept((Map::empty(), Seq::empty()), planned, id));
                }
            }
            let k = choose|k: int| 0 <= k < all.len() && (#[trigger] all[k]).id == id;
            assert(resources.contains(all[k]));
            let i = choose|i: int| 0 <= i < resources.len() && resources[i] == all[k];
            assert(resources[i].id == id);
            assert(in_first(components, n as int, id));
        }
        if grouped(components, id) && lists(resources, id) {
            let i = choose|i: int| 0 <= i < resources.len() && (#[trigger] resources[i]).id == id;
            assert(placed_well(resources[i], planned, larger(granularity, 1)));
        }
    }
}

/// Resources that are live together never share a byte.
pub proof fn law_live_resources_share_no_byte(
    strategy: AliasStrategy,
    resources: Seq<AliasResource>,
    components: Seq<Vec<u32>>,
    granularity: u64,
    i: int,
    j: int,
)
    requires
        plan_input(resources, components),
        0 <= i < resources.len(),
        0 <= j < resources.len(),
        i != j,
        grouped(components, resources[i].id),
        grouped(components, resources[j].id),
        live_together(resources[i], resources[j]),
    ensures
        ({
            let planned = whole_plan(strategy, resources, components, granularity);
            !planned.0[resources[i].id].meets(planned.0[resources[j].id])
        }),
{
    law_plans_are_indexable(strategy, resources, components, granularity);
    let n = components.len();
    let planned = whole_plan(strategy, resources, components, granularity);
    let all = members_up_to(resources, components, n);
    lemma_plan_extends(strategy, resources, components, larger(granularity, 1), n);
    lemma_members_up_to(resources, components, n);
    assert(in_first(components, n as int, resources[i].id));
    assert(in_first(components, n as int, resources[j].id));
    assert(all.contains(resources[i]));
    assert(all.contains(resources[j]));
    let a = choose|a: int| 0 <= a < all.len() && all[a] == resources[i];
    let b = choose|b: int| 0 <= b < all.len() && all[b] == resources[j];
    assert(resources[i].id != resources[j].id) by {
        if i < j {
            assert(resources[i].id != resources[j].id);
        } else {
            assert(resources[j].id != resources[i].id);
        }
    }
    if a < b {
        assert(kept_apart(all[a], all[b], planned));
    } else {
        assert(kept_apart(all[b], all[a], planned));
    }
}

/// Every bucket holds a resource, and has an alignment that is a power of two. Where every
/// resource accepts some memory type, the bucket has one left that all of its members
/// accept.
pub proof fn law_every_bucket_is_usable(
    strategy: AliasStrategy,
    resources: Seq<AliasResource>,
    components: Seq<Vec<u32>>,
    granularity: u64,
    bucket: int,
)
    requires
        plan_input(resources, components),
        0 <= bucket < whole_plan(strategy, resources, components, granularity).1.len(),
    ensures
        ({
            let planned = whole_plan(strategy, resources, components, granularity);
            &&& is_power_of_two(planned.1[bucket].alignment)
            &&& in_use(resources, planned, bucket)
            &&& (forall|i: int|
                0 <= i < resources.len() ==> (#[trigger] resources[i]).memory_type_bits != 0)
                ==> allocatable(planned.1[bucket])
        }),
{
    law_plans_are_indexable(strategy, resources, components, granularity);
    let n = components.len();
    let planned = whole_plan(strategy, resources, components, granularity);
    let all = members_up_to(resources, components, n);
    lemma_plan_extends(strategy, resources, components, larger(granularity, 1), n);
    lemma_members_up_to(resources, components, n);
    assert(bucket_settled(all, planned, bucket));
    let k = choose|k: int|
        0 <= k < all.len() && planned.0[(#[trigger] all[k]).id].bucket == bucket;
    assert(resources.contains(all[k]));
    let i = choose|i: int| 0 <= i < resources.len() && resources[i] == all[k];
    assert(planned.0[resources[i].id].bucket == bucket);
    assert(placed_well(all[k], planned, larger(granularity, 1)));
}

// ---------------------------------------------------------------------------
// Components, strategies, addresses
// ---------------------------------------------------------------------------

/// Later components leave the placement of an earlier one's resource alone.
proof fn lemma_entry_stays(
    strategy: AliasStrategy,
    resources: Seq<AliasResource>,
    components: Seq<Vec<u32>>,
    granularity: u64,
    n: nat,
    m: nat,
    id: u32,
)
    requires
        granularity > 0,
        plannable(resources),
        listed_once(components),
        n <= m <= components.len(),
        indexable(plan_of(strategy, resources, components, granularity, m).1),
        in_first(components, n as int, id),
    ensures
        plan_of(strategy, resources, components, granularity, n).0[id] == plan_of(
            strategy,
            resources,
            components,
            granularity,
            m,
        ).0[id],
    decreases m,
{
    if n < m {
        let k = (m - 1) as nat;
        let base = plan_of(strategy, resources, components, granularity, k);
        let members = members_of(resources, components[m - 1]@);
        lemma_plan_grows(strategy, resources, components, granularity, k, m);
        lemma_entry_stays(strategy, resources, components, granularity, n, k, id);
        lemma_members_of(resources, components[m - 1]@);
        lemma_component_extends(strategy, members, granularity, base);
        assert(!lists(members, id)) by {
            if lists(members, id) {
                let i = choose|i: int| 0 <= i < members.len() && (#[trigger] members[i]).id == id;
                assert(components[m - 1]@.contains(members[i].id));
                assert(grouped_in(components, m - 1, id));
                let c = choose|c: int| #[trigger] grouped_in(components, c, id) && c < n;
            }
        }
        assert(entry_kept(
            base,
            plan_of(strategy, resources, components, granularity, m),
            id,
        ));
    }
}

/// A resource of component `c` stands in one of the buckets that `c` added.
proof fn lemma_bucket_of_component(
    strategy: AliasStrategy,
    resources: Seq<AliasResource>,
    components: Seq<Vec<u32>>,
    granularity: u64,
    c: int,
    i: int,
)
    requires
        granularity > 0,
        plannable(resources),
        listed_once(components),
        0 <= i < resources.len(),
        grouped_in(components, c, resources[i].id),
        indexable(
            plan_of(strategy, resources, components, granularity, components.len()).1,
        ),
    ensures
        ({
            let planned = plan_of(strategy, resources, components, granularity, components.len());
            let from = plan_of(strategy, resources, components, granularity, c as nat);
            let to = plan_of(strategy, resources, components, granularity, (c + 1) as nat);
            &&& planned.0[resources[i].id] == to.0[resources[i].id]
            &&& from.1.len() <= planned.0[resources[i].id].bucket < to.1.len()
            &&& members_of(resources, components[c]@).contains(resources[i])
        }),
{
    let n = components.len();
    let id = resources[i].id;
    let base = plan_of(strategy, resources, components, granularity, c as nat);
    let out = plan_of(strategy, resources, components, granularity, (c + 1) as nat);
    let members = members_of(resources, components[c]@);
    lemma_plan_grows(strategy, resources, components, granularity, (c + 1) as nat, n);
    assert(in_first(components, c + 1, id));
    lemma_entry_stays(strategy, resources, components, granularity, (c + 1) as nat, n, id);
    lemma_members_of(resources, components[c]@);
    lemma_component_extends(strategy, members, granularity, base);
    assert(members.contains(resources[i]));
    let k = choose|k: int| 0 <= k < members.len() && members[k] == resources[i];
    assert(placed_well(members[k], out, granularity));
}

/// Resources of different components never stand in the same bucket.
pub proof fn law_components_share_no_bucket(
    strategy: AliasStrategy,
    resources: Seq<AliasResource>,
    components: Seq<Vec<u32>>,
    granularity: u64,
    c: int,
    i: int,
    d: int,
    j: int,
)
    requires
        plan_input(resources, components),
        0 <= i < resources.len(),
        0 <= j < resources.len(),
        grouped_in(components, c, resources[i].id),
        grouped_in(components, d, resources[j].id),
        c != d,
    ensures
        ({
            let planned = whole_plan(strategy, resources, components, granularity);
            planned.0[resources[i].id].bucket != planned.0[resources[j].id].bucket
        }),
{
    law_plans_are_indexable(strategy, resources, components, granularity);
    let g = larger(granularity, 1);
    lemma_bucket_of_component(strategy, resources, components, g, c, i);
    lemma_bucket_of_component(strategy, resources, components, g, d, j);
    if c < d {
        lemma_plan_grows(strategy, resources, components, g, (c + 1) as nat, d as nat);
    } else {
        lemma_plan_grows(strategy, resources, components, g, (d + 1) as nat, c as nat);
    }
}

proof fn lemma_off_bucket(members: Seq<AliasResource>, n: nat, base: PlanView, i: int)
    requires
        0 <= i < n <= members.len(),
        plannable(members),
        indexable(off_plan(members, n, base).1),
    ensures
        off_plan(members, n, base).0[members[i].id].bucket == base.1.len() + i,
        off_plan(members, n, base).0[members[i].id].offset == 0,
    decreases n,
{
    let m = (n - 1) as nat;
    lemma_off_extends(members, n, base, 1);
    lemma_index_fits((base.1.len() + m) as nat);
    lemma_off_extends(members, m, base, 1);
    if i < m {
        lemma_off_bucket(members, m, base, i);
        assert(members[i].id != members[n - 1].id);
    }
}

/// With aliasing off no two resources stand in the same bucket.
pub proof fn law_off_shares_nothing(
    resources: Seq<AliasResource>,
    components: Seq<Vec<u32>>,
    granularity: u64,
    i: int,
    j: int,
)
    requires
        plan_input(resources, components),
        0 <= i < resources.len(),
        0 <= j < resources.len(),
        i != j,
        grouped(components, resources[i].id),
        grouped(components, resources[j].id),
    ensures
        ({
            let planned = whole_plan(AliasStrategy::Off, resources, components, granularity);
            planned.0[resources[i].id].bucket != planned.0[resources[j].id].bucket
        }),
{
    law_plans_are_indexable(AliasStrategy::Off, resources, components, granularity);
    let g = larger(granularity, 1);
    let c = choose|c: int| #[trigger] grouped_in(components, c, resources[i].id);
    let d = choose|d: int| #[trigger] grouped_in(components, d, resources[j].id);
    if c != d {
        law_components_share_no_bucket(
            AliasStrategy::Off,
            resources,
            components,
            granularity,
            c,
            i,
            d,
            j,
        );
    } else {
        let members = members_of(resources, components[c]@);
        let base = plan_of(AliasStrategy::Off, resources, components, g, c as nat);
        lemma_bucket_of_component(AliasStrategy::Off, resources, components, g, c, i);
        lemma_bucket_of_component(AliasStrategy::Off, resources, components, g, c, j);
        lemma_plan_grows(
            AliasStrategy::Off,
            resources,
            components,
            g,
            (c + 1) as nat,
            components.len(),
        );
        lemma_members_of(resources, components[c]@);
        let a = choose|a: int| 0 <= a < members.len() && members[a] == resources[i];
        let b = choose|b: int| 0 <= b < members.len() && members[b] == resources[j];
        lemma_off_bucket(members, members.len(), base, a);
        lemma_off_bucket(members, members.len(), base, b);
        if i < j {
            assert(resources[i].id != resources[j].id);
        } else {
            assert(resources[j].id != resources[i].id);
        }
    }
}

/// Under slot coloring every resource stands at the start of its bucket, so two
/// members of a bucket never co-occupy it.
pub proof fn law_slots_start_at_zero(
    resources: Seq<AliasResource>,
    components: Seq<Vec<u32>>,
    granularity: u64,
    i: int,
)
    requires
        plan_input(resources, components),
        0 <= i < resources.len(),
        grouped(components, resources[i].id),
    ensures
        whole_plan(AliasStrategy::Slot, resources, components, granularity).0[resources[i].id].offset
            == 0,
{
    law_plans_are_indexable(AliasStrategy::Slot, resources, components, granularity);
    let g = larger(granularity, 1);
    let c = choose|c: int| #[trigger] grouped_in(components, c, resources[i].id);
    let members = members_of(resources, components[c]@);
    let base = plan_of(AliasStrategy::Slot, resources, components, g, c as nat);
    lemma_bucket_of_component(AliasStrategy::Slot, resources, components, g, c, i);
    lemma_plan_grows(
        AliasStrategy::Slot,
        resources,
        components,
        g,
        (c + 1) as nat,
        components.len(),
    );
    lemma_members_of(resources, components[c]@);
    let visit = arranged(members, false);
    lemma_arranged(members, false);
    lemma_slot_extends(visit, members.len(), base, g);
    assert(visit.take(members.len() as int) =~= visit);
    let a = choose|a: int| 0 <= a < members.len() && members[a] == resources[i];
    assert(visit.contains(members[a]));
    let k = choose|k: int| 0 <= k < visit.len() && visit[k] == members[a];
    assert(visit[k].id == resources[i].id);
}

proof fn lemma_power_of_two_divides(a: u64, b: u64)
    requires
        is_power_of_two(a),
        is_power_of_two(b),
        a <= b,
    ensures
        b as int % a as int == 0,
{
    let i = choose|k: nat| a == #[trigger] vstd::arithmetic::power2::pow2(k);
    let j = choose|k: nat| b == #[trigger] vstd::arithmetic::power2::pow2(k);
    vstd::arithmetic::power2::lemma_pow2_pos(i);
    if j < i {
        vstd::arithmetic::power2::lemma_pow2_strictly_increases(j, i);
    }
    let d = (j - i) as nat;
    vstd::arithmetic::power2::lemma_pow2_adds(i, d);
    assert(i + d == j);
    let p = vstd::arithmetic::power2::pow2(d) as int;
    assert(b as int == p * a as int) by (nonlinear_arith)
        requires
            b as int == a as int * p,
    ;
    vstd::arithmetic::div_mod::lemma_mod_multiples_basic(p, a as int);
}

proof fn lemma_multiple_of_multiple(x: int, b: int, a: int)
    requires
        a > 0,
        b > 0,
        x % b == 0,
        b % a == 0,
    ensures
        x % a == 0,
{
    lemma_fundamental_div_mod(x, b);
    lemma_fundamental_div_mod(b, a);
    let q = x / b;
    let p = b / a;
    assert(x == (q * p) * a) by (nonlinear_arith)
        requires
            x == b * q,
            b == a * p,
    ;
    vstd::arithmetic::div_mod::lemma_mod_multiples_basic(q * p, a);
}

/// Wherever the allocator puts a bucket at an address aligned as the bucket asks,
/// every resource in it ends up at an address aligned as the resource asks.
pub proof fn law_addresses_are_aligned(
    strategy: AliasStrategy,
    resources: Seq<AliasResource>,
    components: Seq<Vec<u32>>,
    granularity: u64,
    i: int,
    base: int,
)
    requires
        plan_input(resources, components),
        is_power_of_two(larger(granularity, 1)),
        0 <= i < resources.len(),
        grouped(components, resources[i].id),
        ({
            let planned = whole_plan(strategy, resources, components, granularity);
            let bucket = planned.1[planned.0[resources[i].id].bucket as int];
            base % (bucket.alignment as int) == 0
        }),
    ensures
        ({
            let planned = whole_plan(strategy, resources, components, granularity);
            (base + planned.0[resources[i].id].offset) % (resources[i].alignment as int) == 0
        }),
{
    law_plans_are_indexable(strategy, resources, components, granularity);
    let planned = whole_plan(strategy, resources, components, granularity);
    let g = larger(granularity, 1);
    let r = resources[i];
    let p = planned.0[r.id];
    let bucket = planned.1[p.bucket as int];
    law_every_grouped_resource_is_placed_well(strategy, resources, components, granularity);
    assert(placed_well(resources[i], planned, g));
    law_every_bucket_is_usable(strategy, resources, components, granularity, p.bucket as int);
    lemma_power_of_two_positive(r.alignment);
    lemma_power_of_two_positive(bucket.alignment);
    lemma_power_of_two_divides(r.alignment, bucket.alignment);
    lemma_multiple_of_multiple(base, bucket.alignment as int, r.alignment as int);
    lemma_power_of_two_divides(r.alignment, larger(r.alignment, g));
    lemma_multiple_of_multiple(
        p.offset as int,
        larger(r.alignment, g) as int,
        r.alignment as int,
    );
    lemma_fundamental_div_mod(base, r.alignment as int);
    lemma_fundamental_div_mod(p.offset as int, r.alignment as int);
    let a = r.alignment as int;
    let x = base / a;
    let y = p.offset as int / a;
    assert(base + p.offset == (x + y) * a) by (nonlinear_arith)
        requires
            base == a * x,
            p.offset as int == a * y,
    ;
    vstd::arithmetic::div_mod::lemma_mod_multiples_basic(x + y, a);
}

// ---------------------------------------------------------------------------
// No plan beats the peak
// ---------------------------------------------------------------------------

/// The sum of the lengths of byte ranges given as offset and length.
spec fn lengths(ranges: Seq<(int, int)>) -> int
    decreases ranges.len(),
{
    if ranges.len() == 0 {
        0
    } else {
        lengths(ranges.drop_last()) + ranges.last().1
    }
}

proof fn lemma_lengths_remove(ranges: Seq<(int, int)>, i: int)
    requires
        0 <= i < ranges.len(),
    ensures
        lengths(ranges) == lengths(ranges.remove(i)) + ranges[i].1,
    decreases ranges.len(),
{
    let n = ranges.len() - 1;
    if i < n {
        lemma_lengths_remove(ranges.drop_last(), i);
        assert(ranges.remove(i).drop_last() =~= ranges.drop_last().remove(i));
        assert(ranges.remove(i).last() == ranges.last());
    } else {
        assert(ranges.remove(i) =~= ranges.drop_last());
    }
}

proof fn lemma_rightmost(ranges: Seq<(int, int)>) -> (i: int)
    requires
        ranges.len() > 0,
    ensures
        0 <= i < ranges.len(),
        forall|k: int| 0 <= k < ranges.len() ==> (#[trigger] ranges[k]).0 <= ranges[i].0,
    decreases ranges.len(),
{
    if ranges.len() == 1 {
        0
    } else {
        let rest = ranges.drop_last();
        let j = lemma_rightmost(rest);
        let n = ranges.len() - 1;
        assert forall|k: int| 0 <= k < n implies (#[trigger] ranges[k]).0 <= ranges[j].0 by {
            assert(rest[k] == ranges[k]);
        }
        if ranges[n].0 > ranges[j].0 {
            n
        } else {
            j
        }
    }
}

/// Ranges that do not meet and lie below `capacity` are no longer than it together.
proof fn lemma_disjoint_ranges_fit(ranges: Seq<(int, int)>, capacity: int)
    requires
        capacity >= 0,
        forall|i: int|
            0 <= i < ranges.len() ==> 0 <= (#[trigger] ranges[i]).0 && 0 <= ranges[i].1
                && ranges[i].0 + ranges[i].1 <= capacity,
        forall|i: int, j: int| #![trigger ranges[i], ranges[j]]
            0 <= i < ranges.len() && 0 <= j < ranges.len() && i != j && ranges[i].1 > 0
                && ranges[j].1 > 0 ==> !(ranges[i].0 < ranges[j].0 + ranges[j].1
                && ranges[j].0 < ranges[i].0 + ranges[i].1),
    ensures
        lengths(ranges) <= capacity,
    decreases ranges.len(),
{
    if ranges.len() > 0 {
        let i = if exists|z: int| 0 <= z < ranges.len() && (#[trigger] ranges[z]).1 == 0 {
            choose|z: int| 0 <= z < ranges.len() && (#[trigger] ranges[z]).1 == 0
        } else {
            lemma_rightmost(ranges)
        };
        let rest = ranges.remove(i);
        lemma_lengths_remove(ranges, i);
        assert forall|k: int| 0 <= k < rest.len() implies #[trigger] rest[k] == ranges[if k < i {
            k
        } else {
            k + 1
        }] by {}
        let bound = if ranges[i].1 == 0 {
            capacity
        } else {
            ranges[i].0
        };
        assert forall|k: int| 0 <= k < rest.len() implies 0 <= (#[trigger] rest[k]).0 && 0
            <= rest[k].1 && rest[k].0 + rest[k].1 <= bound by {
            let o = if k < i {
                k
            } else {
                k + 1
            };
            assert(rest[k] == ranges[o]);
            assert(ranges[i].1 > 0 ==> !(ranges[i].0 < ranges[o].0 + ranges[o].1
                && ranges[o].0 < ranges[i].0 + ranges[i].1));
        }
        assert forall|a: int, b: int| #![trigger rest[a], rest[b]]
            0 <= a < rest.len() && 0 <= b < rest.len() && a != b && rest[a].1 > 0 && rest[b].1
                > 0 implies !(rest[a].0 < rest[b].0 + rest[b].1 && rest[b].0 < rest[a].0
            + rest[a].1) by {
            let x = if a < i {
                a
            } else {
                a + 1
            };
            let y = if b < i {
                b
            } else {
                b + 1
            };
            assert(rest[a] == ranges[x]);
            assert(rest[b] == ranges[y]);
        }
        lemma_disjoint_ranges_fit(rest, bound);
    }
}

/// Whether a resource is live at `pass` and stands in bucket `b`.
spec fn occupies(r: AliasResource, placements: Map<u32, Placement>, pass: int, b: int) -> bool {
    live_at(r, pass) && placements[r.id].bucket == b
}

/// The bytes of bucket `b` that hold live resources at `pass`.
spec fn bytes_in_bucket(
    resources: Seq<AliasResource>,
    placements: Map<u32, Placement>,
    pass: int,
    b: int,
) -> int
    decreases resources.len(),
{
    if resources.len() == 0 {
        0
    } else {
        bytes_in_bucket(resources.drop_last(), placements, pass, b) + if occupies(
            resources.last(),
            placements,
            pass,
            b,
        ) {
            resources.last().size as int
        } else {
            0
        }
    }
}

/// The byte ranges that the live resources of bucket `b` take up at `pass`.
spec fn ranges_in_bucket(
    resources: Seq<AliasResource>,
    placements: Map<u32, Placement>,
    pass: int,
    b: int,
) -> Seq<(int, int)>
    decreases resources.len(),
{
    if resources.len() == 0 {
        Seq::empty()
    } else {
        let rest = ranges_in_bucket(resources.drop_last(), placements, pass, b);
        let r = resources.last();
        if occupies(r, placements, pass, b) {
            rest.push((placements[r.id].offset as int, r.size as int))
        } else {
            rest
        }
    }
}

/// Which resource a range of `ranges_in_bucket` belongs to.
spec fn range_owner(
    resources: Seq<AliasResource>,
    placements: Map<u32, Placement>,
    pass: int,
    b: int,
    range: (int, int),
    i: int,
) -> bool {
    &&& 0 <= i < resources.len()
    &&& occupies(resources[i], placements, pass, b)
    &&& range == (placements[resources[i].id].offset as int, resources[i].size as int)
}

/// What each range of `ranges_in_bucket` belongs to, in the same order.
proof fn lemma_range_owners(
    resources: Seq<AliasResource>,
    placements: Map<u32, Placement>,
    pass: int,
    b: int,
) -> (owners: Seq<int>)
    ensures
        owners.len() == ranges_in_bucket(resources, placements, pass, b).len(),
        lengths(ranges_in_bucket(resources, placements, pass, b)) == bytes_in_bucket(
            resources,
            placements,
            pass,
            b,
        ),
        forall|k: int|
            0 <= k < owners.len() ==> range_owner(
                resources,
                placements,
                pass,
                b,
                ranges_in_bucket(resources, placements, pass, b)[k],
                #[trigger] owners[k],
            ),
        forall|k: int, l: int| #![trigger owners[k], owners[l]]
            0 <= k < l < owners.len() ==> owners[k] < owners[l],
    decreases resources.len(),
{
    if resources.len() == 0 {
        Seq::empty()
    } else {
        let rest = resources.drop_last();
        let n = resources.len() - 1;
        let few = lemma_range_owners(rest, placements, pass, b);
        let inner = ranges_in_bucket(rest, placements, pass, b);
        let out = ranges_in_bucket(resources, placements, pass, b);
        assert forall|k: int| 0 <= k < few.len() implies range_owner(
            resources,
            placements,
            pass,
            b,
            inner[k],
            #[trigger] few[k],
        ) && few[k] < n by {
            assert(range_owner(rest, placements, pass, b, inner[k], few[k]));
        }
        if occupies(resources.last(), placements, pass, b) {
            assert(out.drop_last() =~= inner);
            let owners = few.push(n);
            assert forall|k: int| 0 <= k < owners.len() implies range_owner(
                resources,
                placements,
                pass,
                b,
                out[k],
                #[trigger] owners[k],
            ) by {
                if k < few.len() {
                    assert(owners[k] == few[k]);
                    assert(out[k] == inner[k]);
                }
            }
            owners
        } else {
            few
        }
    }
}

/// The live bytes of the first `n` buckets.
spec fn bytes_in_buckets(
    resources: Seq<AliasResource>,
    placements: Map<u32, Placement>,
    pass: int,
    n: nat,
) -> int
    decreases n,
{
    if n == 0 {
        0
    } else {
        bytes_in_buckets(resources, placements, pass, (n - 1) as nat) + bytes_in_bucket(
            resources,
            placements,
            pass,
            n - 1,
        )
    }
}

proof fn lemma_one_more_resource(
    resources: Seq<AliasResource>,
    placements: Map<u32, Placement>,
    pass: int,
    n: nat,
)
    requires
        resources.len() > 0,
    ensures
        bytes_in_buckets(resources, placements, pass, n) == bytes_in_buckets(
            resources.drop_last(),
            placements,
            pass,
            n,
        ) + if live_at(resources.last(), pass) && placements[resources.last().id].bucket < n {
            resources.last().size as int
        } else {
            0
        },
    decreases n,
{
    if n > 0 {
        lemma_one_more_resource(resources, placements, pass, (n - 1) as nat);
    }
}

proof fn lemma_live_bytes_by_bucket(
    resources: Seq<AliasResource>,
    placements: Map<u32, Placement>,
    pass: int,
    n: nat,
)
    requires
        forall|i: int|
            0 <= i < resources.len() ==> placements[(#[trigger] resources[i]).id].bucket < n,
    ensures
        live_bytes(resources, pass) == bytes_in_buckets(resources, placements, pass, n),
    decreases resources.len(),
{
    if resources.len() > 0 {
        let rest = resources.drop_last();
        assert forall|i: int| 0 <= i < rest.len() implies placements[(#[trigger] rest[i]).id].bucket
            < n by {
            assert(rest[i] == resources[i]);
        }
        lemma_live_bytes_by_bucket(rest, placements, pass, n);
        lemma_one_more_resource(resources, placements, pass, n);
        assert(placements[resources[resources.len() - 1].id].bucket < n);
    } else {
        lemma_no_bytes(resources, placements, pass, n);
    }
}

proof fn lemma_no_bytes(
    resources: Seq<AliasResource>,
    placements: Map<u32, Placement>,
    pass: int,
    n: nat,
)
    requires
        resources.len() == 0,
    ensures
        bytes_in_buckets(resources, placements, pass, n) == 0,
    decreases n,
{
    if n > 0 {
        lemma_no_bytes(resources, placements, pass, (n - 1) as nat);
    }
}

proof fn lemma_buckets_hold_live_bytes(
    resources: Seq<AliasResource>,
    placements: Map<u32, Placement>,
    buckets: Seq<BucketReqs>,
    pass: int,
    n: nat,
)
    requires
        n <= buckets.len(),
        forall|b: int|
            0 <= b < n ==> bytes_in_bucket(resources, placements, pass, b) <= (
            #[trigger] buckets[b]).size,
    ensures
        bytes_in_buckets(resources, placements, pass, n) <= bytes_of(buckets.take(n as int)),
    decreases n,
{
    if n > 0 {
        lemma_buckets_hold_live_bytes(resources, placements, buckets, pass, (n - 1) as nat);
        assert(buckets.take(n as int).drop_last() =~= buckets.take(n - 1));
        assert(bytes_in_bucket(resources, placements, pass, n - 1) <= buckets[n - 1].size);
    }
}

/// A plan that places every resource asks for no fewer bytes than are live at any
/// one pass.
pub proof fn law_total_meets_the_live_peak(
    strategy: AliasStrategy,
    resources: Seq<AliasResource>,
    components: Seq<Vec<u32>>,
    granularity: u64,
    pass: int,
)
    requires
        plan_input(resources, components),
        forall|i: int|
            0 <= i < resources.len() ==> grouped(components, (#[trigger] resources[i]).id),
    ensures
        live_bytes(resources, pass) <= bytes_of(
            whole_plan(strategy, resources, components, granularity).1,
        ),
{
    law_plans_are_indexable(strategy, resources, components, granularity);
    let planned = whole_plan(strategy, resources, components, granularity);
    let placements = planned.0;
    let buckets = planned.1;
    let g = larger(granularity, 1);
    law_every_grouped_resource_is_placed_well(strategy, resources, components, granularity);
    assert forall|i: int| 0 <= i < resources.len() implies placements[(
    #[trigger] resources[i]).id].bucket < buckets.len() by {
        assert(placed_well(resources[i], planned, g));
    }
    lemma_live_bytes_by_bucket(resources, placements, pass, buckets.len());
    assert forall|b: int| 0 <= b < buckets.len() implies bytes_in_bucket(
        resources,
        placements,
        pass,
        b,
    ) <= (#[trigger] buckets[b]).size by {
        let ranges = ranges_in_bucket(resources, placements, pass, b);
        let owners = lemma_range_owners(resources, placements, pass, b);
        assert forall|k: int| 0 <= k < ranges.len() implies 0 <= (#[trigger] ranges[k]).0 && 0
            <= ranges[k].1 && ranges[k].0 + ranges[k].1 <= buckets[b].size by {
            let i = owners[k];
            assert(range_owner(resources, placements, pass, b, ranges[k], i));
            assert(placed_well(resources[i], planned, g));
        }
        assert forall|k: int, l: int| #![trigger ranges[k], ranges[l]]
            0 <= k < ranges.len() && 0 <= l < ranges.len() && k != l && ranges[k].1 > 0
                && ranges[l].1 > 0 implies !(ranges[k].0 < ranges[l].0 + ranges[l].1
            && ranges[l].0 < ranges[k].0 + ranges[k].1) by {
            let i = owners[k];
            let j = owners[l];
            assert(range_owner(resources, placements, pass, b, ranges[k], i));
            assert(range_owner(resources, placements, pass, b, ranges[l], j));
            assert(placed_well(resources[i], planned, g));
            assert(placed_well(resources[j], planned, g));
            if k < l {
                assert(owners[k] < owners[l]);
            } else {
                assert(owners[l] < owners[k]);
            }
            law_live_resources_share_no_byte(
                strategy,
                resources,
                components,
                granularity,
                i,
                j,
            );
        }
        lemma_disjoint_ranges_fit(ranges, buckets[b].size as int);
    }
    lemma_buckets_hold_live_bytes(resources, placements, buckets, pass, buckets.len());
    assert(buckets.take(buckets.len() as int) =~= buckets);
}

proof fn lemma_bytes_not_negative(buckets: Seq<BucketReqs>)
    ensures
        bytes_of(buckets) >= 0,
    decreases buckets.len(),
{
    if buckets.len() > 0 {
        lemma_bytes_not_negative(buckets.drop_last());
    }
}

/// No plan that places every resource falls below the lower bound, whatever the strategy
/// and the granularity.
pub proof fn law_no_plan_beats_the_bound(
    strategy: AliasStrategy,
    resources: Seq<AliasResource>,
    components: Seq<Vec<u32>>,
    granularity: u64,
    bound: int,
)
    requires
        plan_input(resources, components),
        forall|i: int|
            0 <= i < resources.len() ==> grouped(components, (#[trigger] resources[i]).id),
        is_live_peak(resources, bound),
    ensures
        bound <= bytes_of(whole_plan(strategy, resources, components, granularity).1),
{
    if bound == 0 {
        lemma_bytes_not_negative(whole_plan(strategy, resources, components, granularity).1);
    } else {
        let pass = choose|pass: int|
            0 <= pass && #[trigger] live_bytes(resources, pass) == bound;
        law_total_meets_the_live_peak(strategy, resources, components, granularity, pass);
    }
}

/// A bucket is as large as its largest member, whatever the strategy.
pub proof fn law_buckets_are_as_large_as_their_largest(
    strategy: AliasStrategy,
    resources: Seq<AliasResource>,
    components: Seq<Vec<u32>>,
    granularity: u64,
    bucket: int,
)
    requires
        plan_input(resources, components),
        0 <= bucket < whole_plan(strategy, resources, components, granularity).1.len(),
    ensures
        ({
            let planned = whole_plan(strategy, resources, components, granularity);
            let size = planned.1[bucket].size;
            &&& exists|i: int|
                0 <= i < resources.len() && planned.0[(#[trigger] resources[i]).id].bucket
                    == bucket && resources[i].size == size
            &&& forall|i: int|
                0 <= i < resources.len() && grouped(components, (#[trigger] resources[i]).id)
                    && planned.0[resources[i].id].bucket == bucket ==> resources[i].size <= size
        }),
{
    law_every_bucket_is_usable(strategy, resources, components, granularity, bucket);
    law_every_grouped_resource_is_placed_well(strategy, resources, components, granularity);
}

proof fn lemma_granularity_unused(
    strategy: AliasStrategy,
    resources: Seq<AliasResource>,
    components: Seq<Vec<u32>>,
    g: u64,
    h: u64,
    n: nat,
)
    requires
        strategy !is Bucket,
    ensures
        plan_of(strategy, resources, components, g, n) == plan_of(
            strategy,
            resources,
            components,
            h,
            n,
        ),
    decreases n,
{
    if n > 0 {
        lemma_granularity_unused(strategy, resources, components, g, h, (n - 1) as nat);
    }
}

/// The granularity matters to packing alone: where no two members of a bucket are in it
/// at once, it changes nothing.
pub proof fn law_granularity_matters_to_packing_alone(
    strategy: AliasStrategy,
    resources: Seq<AliasResource>,
    components: Seq<Vec<u32>>,
    g: u64,
    h: u64,
)
    requires
        strategy !is Bucket,
    ensures
        whole_plan(strategy, resources, components, g) == whole_plan(
            strategy,
            resources,
            components,
            h,
        ),
{
    lemma_granularity_unused(
        strategy,
        resources,
        components,
        larger(g, 1),
        larger(h, 1),
        components.len(),
    );
}

} // verus!
