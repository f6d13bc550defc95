//! Transient memory aliasing policy: which resources share memory, and where.
//!
//! Plain data in, plain data out: memory requirements become [`AliasResource`]s,
//! [`plan`] places them, and the caller binds the result.
//!
//! Three strategies:
//!
//! * [`AliasStrategy::Off`]: no aliasing at all, one bucket per resource.
//! * [`AliasStrategy::Slot`]: greedy interval-graph coloring. Every member of a
//!   bucket sits at offset 0 and the bucket is as large as its largest member, so
//!   two members never co-occupy.
//! * [`AliasStrategy::Bucket`]: buckets are sized by their largest member and
//!   smaller resources are packed at offsets into the byte regions left free by
//!   occupants whose lifetimes are disjoint from theirs.
//!
//! All three emit the same [`Placement`] shape, so everything downstream is shared.
use std::collections::HashMap;

use vstd::prelude::*;

use crate::render_graph::sorting::{index_view, key_view, sort_indices, stable_order};
use crate::utils::{word_is, word_of};

verus! {

broadcast use vstd::std_specs::hash::group_hash_axioms;

/// The kind of heap a resource asks for.
#[derive(Clone, Copy, Debug, PartialEq, Eq, Structural)]
pub enum MemoryLocation {
    Unknown,
    GpuOnly,
    CpuToGpu,
    GpuToCpu,
}

/// One transient resource as the placer sees it: a size, a memory-compatibility
/// mask, and an inclusive lifetime in pass ids.
#[derive(Clone, Copy, Debug, PartialEq, Eq, Structural)]
pub struct AliasResource {
    pub id: u32,
    pub size: u64,
    /// Always a power of two.
    pub alignment: u64,
    pub memory_type_bits: u32,
    pub location: MemoryLocation,
    /// Inclusive: the resource must be live from `first_pass` through `last_pass`.
    pub first_pass: usize,
    pub last_pass: usize,
}

/// Where a resource ended up: byte range `[offset, offset + size)` inside `bucket`.
#[derive(Clone, Copy, Debug, PartialEq, Eq, Structural)]
pub struct Placement {
    pub bucket: u32,
    pub offset: u64,
    pub size: u64,
}

impl Placement {
    /// Whether byte `b` of bucket `bucket` belongs to this placement.
    pub open spec fn holds(self, bucket: u32, b: int) -> bool {
        self.bucket == bucket && self.offset <= b < self.offset + self.size
    }

    /// Whether the two byte ranges meet in one bucket. An empty one meets nothing.
    pub open spec fn meets(self, other: Placement) -> bool {
        self.bucket == other.bucket && self.size > 0 && other.size > 0 && self.offset
            < other.offset + other.size && other.offset < self.offset + self.size
    }

    /// Do these two placements share any byte? Only meaningful within one bucket,
    /// which this checks. This is the predicate that decides whether two resources
    /// need an aliasing barrier between them.
    pub fn overlaps(&self, other: &Placement) -> (shared: bool)
        requires
            self.offset + self.size <= u64::MAX,
            other.offset + other.size <= u64::MAX,
        ensures
            shared == self.meets(*other),
            shared <==> exists|bucket: u32, b: int|
                #![trigger self.holds(bucket, b)]
                self.holds(bucket, b) && other.holds(bucket, b),
    {
        proof {
            if self.meets(*other) {
                let b: int = if self.offset < other.offset {
                    other.offset as int
                } else {
                    self.offset as int
                };
                assert(self.holds(self.bucket, b) && other.holds(self.bucket, b));
            }
        }
        self.bucket == other.bucket && self.size > 0 && other.size > 0 && self.offset
            < other.offset + other.size && other.offset < self.offset + self.size
    }
}

/// Aggregated memory requirements for one bucket: what the allocator is asked for.
/// `memory_type_bits` is the AND across members; an empty intersection would mean
/// that two resources which cannot share memory were folded together.
#[derive(Clone, Copy, Debug, PartialEq, Eq, Structural)]
pub struct BucketReqs {
    pub size: u64,
    pub alignment: u64,
    pub memory_type_bits: u32,
    pub location: MemoryLocation,
}

/// How transient resources share memory.
#[derive(Clone, Copy, Debug, PartialEq, Eq, Structural)]
pub enum AliasStrategy {
    /// One resource per bucket at a time; bucket size is the largest member.
    Slot,
    /// Offset packing: lifetime-disjoint resources share a bucket's byte range.
    Bucket,
    /// No aliasing: one bucket per resource. Wastes memory on purpose, to find out
    /// whether a corruption comes from aliasing: no two resources share a byte.
    Off,
}

/// What a strategy is called, in words that stand for it.
pub open spec fn strategy_of(word: Seq<char>) -> AliasStrategy {
    if word == "bucket"@ {
        AliasStrategy::Bucket
    } else if word == "off"@ || word == "none"@ {
        AliasStrategy::Off
    } else {
        AliasStrategy::Slot
    }
}

impl AliasStrategy {
    /// The strategy that a text names: `bucket`, or `off` or `none`, in any case and with
    /// white space around it. `slot`, an empty text and any other name slots; the flag
    /// tells whether the text is one of the known ones.
    pub fn parse(raw: &str) -> (r: (AliasStrategy, bool))
        ensures
            r.0 == strategy_of(word_of(raw@)),
            r.1 == (word_of(raw@) == ""@ || word_of(raw@) == "slot"@ || word_of(raw@) == "bucket"@
                || word_of(raw@) == "off"@ || word_of(raw@) == "none"@),
    {
        if word_is(raw, "bucket") {
            (AliasStrategy::Bucket, true)
        } else if word_is(raw, "off") || word_is(raw, "none") {
            (AliasStrategy::Off, true)
        } else {
            (AliasStrategy::Slot, word_is(raw, "") || word_is(raw, "slot"))
        }
    }
}

impl Default for AliasStrategy {
    fn default() -> (s: Self)
        ensures
            s == AliasStrategy::Slot,
    {
        AliasStrategy::Slot
    }
}

// ---------------------------------------------------------------------------
// Arithmetic
// ---------------------------------------------------------------------------

/// The least multiple of `m` that is not below `x`.
pub open spec fn round_up(x: int, m: int) -> int {
    if x % m == 0 {
        x
    } else {
        x + (m - x % m)
    }
}

/// Whether `x` is a power of two.
pub open spec fn is_power_of_two(x: u64) -> bool {
    exists|k: nat| x == #[trigger] vstd::arithmetic::power2::pow2(k)
}

/// The larger of two integers.
pub open spec fn larger(a: u64, b: u64) -> u64 {
    if a >= b {
        a
    } else {
        b
    }
}

/// `x` rounded up to a multiple of `m`, or `None` where that exceeds `u64`.
fn checked_round_up(x: u64, m: u64) -> (r: Option<u64>)
    requires
        m > 0,
    ensures
        match r {
            Some(v) => v == round_up(x as int, m as int),
            None => round_up(x as int, m as int) > u64::MAX,
        },
{
    let rest: u64 = x % m;
    if rest == 0 {
        Some(x)
    } else {
        x.checked_add(m - rest)
    }
}

// ---------------------------------------------------------------------------
// Compatibility and lifetimes
// ---------------------------------------------------------------------------

/// Two resources whose lifetimes overlap must never share a byte.
pub open spec fn live_together(a: AliasResource, b: AliasResource) -> bool {
    a.first_pass <= b.last_pass && b.first_pass <= a.last_pass
}

/// Inclusive-interval overlap.
fn lifetimes_overlap(a: &AliasResource, b: &AliasResource) -> (r: bool)
    ensures
        r == live_together(*a, *b),
{
    a.first_pass <= b.last_pass && b.first_pass <= a.last_pass
}

/// Whether memory type and heap of a bucket admit a resource.
pub open spec fn admits(bucket: BucketReqs, r: AliasResource) -> bool {
    bucket.location == r.location && (bucket.memory_type_bits & r.memory_type_bits) != 0
}

/// May `r` join this bucket at all? Memory type and heap must agree before any
/// offset arithmetic is worth doing.
fn compatible(bucket: &BucketReqs, r: &AliasResource) -> (yes: bool)
    ensures
        yes == admits(*bucket, *r),
{
    bucket.location == r.location && (bucket.memory_type_bits & r.memory_type_bits) != 0
}

/// The requirements of a bucket that holds `r` alone.
pub open spec fn sole(r: AliasResource) -> BucketReqs {
    BucketReqs {
        size: r.size,
        alignment: r.alignment,
        memory_type_bits: r.memory_type_bits,
        location: r.location,
    }
}

/// A bucket's requirements widened to admit `r`, its size left alone.
pub open spec fn folded(bucket: BucketReqs, r: AliasResource) -> BucketReqs {
    BucketReqs {
        size: bucket.size,
        alignment: larger(bucket.alignment, r.alignment),
        memory_type_bits: bucket.memory_type_bits & r.memory_type_bits,
        location: bucket.location,
    }
}

/// Widen a bucket's requirements to admit `r`. Size is not touched: the strategies
/// disagree on it.
fn fold(bucket: &mut BucketReqs, r: &AliasResource)
    ensures
        *final(bucket) == folded(*old(bucket), *r),
{
    if bucket.alignment < r.alignment {
        bucket.alignment = r.alignment;
    }
    bucket.memory_type_bits = bucket.memory_type_bits & r.memory_type_bits;
}

// ---------------------------------------------------------------------------
// Fitting one resource into a bucket
// ---------------------------------------------------------------------------

/// Where the block that an occupant reserves ends: its size padded to the
/// granularity, cut off at the end of the address space.
pub open spec fn block_end(offset: u64, size: u64, granularity: int) -> int {
    let end = offset + round_up(size as int, granularity);
    if end > u64::MAX {
        u64::MAX as int
    } else {
        end
    }
}

/// The byte ranges of a bucket that `r` must not touch, in occupant order.
pub open spec fn blocked_by(
    occupants: Seq<(AliasResource, u64)>,
    r: AliasResource,
    granularity: int,
) -> Seq<(int, int)>
    decreases occupants.len(),
{
    if occupants.len() == 0 {
        Seq::empty()
    } else {
        let rest = blocked_by(occupants.drop_last(), r, granularity);
        let (o, offset) = occupants.last();
        if live_together(o, r) {
            rest.push((offset as int, block_end(offset, o.size, granularity)))
        } else {
            rest
        }
    }
}

/// `blocked` in ascending order.
pub open spec fn ascending(blocked: Seq<(int, int)>) -> Seq<(int, int)> {
    Seq::new(blocked.len(), |i: int| blocked[stable_order(blocked)[i]])
}

/// Where the `k`-th free region begins: behind all of the first `k` blocked ranges.
pub open spec fn region_start(sorted: Seq<(int, int)>, k: nat) -> int
    decreases k,
{
    if k == 0 {
        0
    } else {
        let before = region_start(sorted, (k - 1) as nat);
        if sorted[k - 1].1 > before {
            sorted[k - 1].1
        } else {
            before
        }
    }
}

/// Where the `k`-th free region ends: at the next blocked range, the last one at
/// the end of the bucket.
pub open spec fn region_end(sorted: Seq<(int, int)>, capacity: int, k: int) -> int {
    if k < sorted.len() {
        sorted[k].0
    } else {
        capacity
    }
}

/// Among the first `n` free regions, the length of the smallest that has `need`
/// bytes behind an aligned offset, and that offset; the first of equals.
pub open spec fn best_region(
    sorted: Seq<(int, int)>,
    capacity: int,
    align: int,
    need: int,
    n: nat,
) -> Option<(int, int)>
    decreases n,
{
    if n == 0 {
        None
    } else {
        let best = best_region(sorted, capacity, align, need, (n - 1) as nat);
        let start = region_start(sorted, (n - 1) as nat);
        let end = region_end(sorted, capacity, n - 1);
        let offset = round_up(start, align);
        if end > start && offset + need <= end && (best is None || end - start < (best->0).0) {
            Some((end - start, offset))
        } else {
            best
        }
    }
}

/// The offset at which `r` fits into a bucket of `capacity` bytes, if any: see
/// [`fit`].
pub open spec fn fitting_offset(
    r: AliasResource,
    occupants: Seq<(AliasResource, u64)>,
    capacity: u64,
    granularity: u64,
) -> Option<u64> {
    let sorted = ascending(blocked_by(occupants, r, granularity as int));
    match best_region(
        sorted,
        capacity as int,
        larger(r.alignment, granularity) as int,
        round_up(r.size as int, granularity as int),
        sorted.len() + 1,
    ) {
        Some((len, offset)) => Some(offset as u64),
        None => None,
    }
}

/// The smallest free region in `[0, capacity)` that can hold `r` without touching
/// an occupant whose lifetime overlaps `r`'s, or `None` if it fits nowhere.
///
/// Occupants that do not overlap `r` in time are free real estate. The blocking
/// intervals are sorted and swept; the gaps between them are the aliasable regions.
/// Granularity is applied to every placement.
pub fn fit(
    r: &AliasResource,
    occupants: &Vec<(AliasResource, u64)>,
    capacity: u64,
    granularity: u64,
) -> (offset: Option<u64>)
    requires
        granularity > 0,
    ensures
        offset == fitting_offset(*r, occupants@, capacity, granularity),
{
    let mut blocked: Vec<(u64, u64)> = Vec::new();
    let mut i: usize = 0;
    while i < occupants.len()
        invariant
            granularity > 0,
            i <= occupants.len(),
            key_view(blocked@) == blocked_by(occupants@.take(i as int), *r, granularity as int),
        decreases occupants.len() - i,
    {
        let (o, offset) = occupants[i];
        proof {
            assert(occupants@.take(i + 1).drop_last() =~= occupants@.take(i as int));
        }
        if lifetimes_overlap(&o, r) {
            let end: u64 = match checked_round_up(o.size, granularity) {
                Some(padded) => offset.saturating_add(padded),
                None => u64::MAX,
            };
            let ghost before = blocked@;
            blocked.push((offset, end));
            proof {
                assert(key_view(blocked@) =~= key_view(before).push((offset as int, end as int)));
            }
        }
        i = i + 1;
    }
    proof {
        assert(occupants@.take(i as int) =~= occupants@);
    }
    let ghost unsorted = key_view(blocked@);
    let order = sort_indices(&blocked);
    let ghost sorted = ascending(unsorted);
    proof {
        crate::render_graph::sorting::lemma_stable_order(unsorted);
        assert forall|k: int| 0 <= k < order.len() implies #[trigger] order[k] < blocked.len() && (
        blocked[order[k] as int].0 as int, blocked[order[k] as int].1 as int) == sorted[k] by {
            assert(index_view(order@)[k] == stable_order(unsorted)[k]);
        }
    }
    let align: u64 = if r.alignment < granularity {
        granularity
    } else {
        r.alignment
    };
    let need: Option<u64> = checked_round_up(r.size, granularity);
    let ghost need_int = round_up(r.size as int, granularity as int);
    proof {
        lemma_round_up(r.size as int, granularity as int);
    }
    let mut best: Option<(u64, u64)> = None;
    let mut start: u64 = 0;
    let mut k: usize = 0;
    let n: usize = order.len();
    while k < n
        invariant
            align == larger(r.alignment, granularity),
            align > 0,
            need_int == round_up(r.size as int, granularity as int),
            need_int >= 0,
            need_matches(need, need_int),
            n == order.len(),
            n == sorted.len(),
            k <= n,
            forall|m: int|
                0 <= m < order.len() ==> #[trigger] order[m] < blocked.len() && (
                blocked[order[m] as int].0 as int, blocked[order[m] as int].1 as int)
                    == sorted[m],
            start == region_start(sorted, k as nat),
            region_view(best) == best_region(
                sorted,
                capacity as int,
                align as int,
                need_int,
                k as nat,
            ),
        decreases n - k,
    {
        let (from, to) = blocked[order[k]];
        best = better_region(best, start, from, align, need, Ghost(need_int));
        if to > start {
            start = to;
        }
        k = k + 1;
    }
    // The end of the bucket closes the tail region.
    best = better_region(best, start, capacity, align, need, Ghost(need_int));
    match best {
        Some((_, offset)) => Some(offset),
        None => None,
    }
}

spec fn need_matches(need: Option<u64>, need_int: int) -> bool {
    match need {
        Some(v) => v == need_int,
        None => need_int > u64::MAX,
    }
}

spec fn region_view(best: Option<(u64, u64)>) -> Option<(int, int)> {
    match best {
        Some((len, offset)) => Some((len as int, offset as int)),
        None => None,
    }
}

/// The better of `best` and the free region `[start, end)`, if it can be used.
fn better_region(
    best: Option<(u64, u64)>,
    start: u64,
    end: u64,
    align: u64,
    need: Option<u64>,
    Ghost(need_int): Ghost<int>,
) -> (better: Option<(u64, u64)>)
    requires
        align > 0,
        need_int >= 0,
        need_matches(need, need_int),
    ensures
        region_view(better) == ({
            let offset = round_up(start as int, align as int);
            if end > start && offset + need_int <= end && (best is None || end - start < (
            best->0).0) {
                Some((end - start, offset))
            } else {
                region_view(best)
            }
        }),
{
    proof {
        lemma_round_up(start as int, align as int);
    }
    if end <= start {
        return best;
    }
    let offset: u64 = match checked_round_up(start, align) {
        Some(offset) => offset,
        None => return best,
    };
    let stop: u64 = match need {
        Some(need) => match offset.checked_add(need) {
            Some(stop) => stop,
            None => return best,
        },
        None => return best,
    };
    if stop > end {
        return best;
    }
    let len: u64 = end - start;
    match best {
        Some((best_len, _)) => {
            if len < best_len {
                Some((len, offset))
            } else {
                best
            }
        },
        None => Some((len, offset)),
    }
}

/// `round_up` gives a multiple, no smaller and less than one step larger.
pub proof fn lemma_round_up(x: int, m: int)
    requires
        m > 0,
    ensures
        round_up(x, m) % m == 0,
        x <= round_up(x, m) < x + m,
{
    let rest = x % m;
    if rest != 0 {
        let q = x / m;
        vstd::arithmetic::div_mod::lemma_fundamental_div_mod(x, m);
        assert(round_up(x, m) == (q + 1) * m) by (nonlinear_arith)
            requires
                x == m * q + rest,
                round_up(x, m) == x + (m - rest),
        ;
        vstd::arithmetic::div_mod::lemma_mod_multiples_basic(q + 1, m);
    }
}

// ---------------------------------------------------------------------------
// The three strategies
// ---------------------------------------------------------------------------

/// Placements by resource id, and the buckets that they index.
pub type PlanView = (Map<u32, Placement>, Seq<BucketReqs>);

/// The members placed so far each get a bucket of their own behind `base`'s.
pub open spec fn off_plan(members: Seq<AliasResource>, n: nat, base: PlanView) -> PlanView
    decreases n,
{
    if n == 0 {
        base
    } else {
        let (placements, buckets) = off_plan(members, (n - 1) as nat, base);
        let r = members[n - 1];
        (
            placements.insert(
                r.id,
                Placement { bucket: buckets.len() as u32, offset: 0, size: r.size },
            ),
            buckets.push(sole(r)),
        )
    }
}

/// The keys by which members are visited: earliest start first, or largest first;
/// the id breaks ties.
pub open spec fn visit_keys(members: Seq<AliasResource>, largest_first: bool) -> Seq<(int, int)> {
    Seq::new(
        members.len(),
        |i: int|
            if largest_first {
                (u64::MAX - members[i].size, members[i].id as int)
            } else {
                (members[i].first_pass as int, members[i].id as int)
            },
    )
}

/// `members` in the order in which they are placed.
pub open spec fn arranged(members: Seq<AliasResource>, largest_first: bool) -> Seq<AliasResource> {
    Seq::new(
        members.len(),
        |i: int| members[stable_order(visit_keys(members, largest_first))[i]],
    )
}

/// The state of slot coloring: for each bucket that it opened, when its current
/// occupant dies and the bucket's index; then the plan so far.
pub type SlotView = (Seq<(usize, u32)>, PlanView);

/// The first open bucket at or after `from` that is free before `r` starts and
/// admits it.
pub open spec fn first_fit(
    active: Seq<(usize, u32)>,
    buckets: Seq<BucketReqs>,
    r: AliasResource,
    from: int,
) -> Option<int>
    decreases active.len() - from,
{
    if from < 0 || from >= active.len() {
        None
    } else if active[from].0 < r.first_pass && admits(buckets[active[from].1 as int], r) {
        Some(from)
    } else {
        first_fit(active, buckets, r, from + 1)
    }
}

/// `bucket` after `r` has moved into it whole.
pub open spec fn grown(bucket: BucketReqs, r: AliasResource) -> BucketReqs {
    BucketReqs { size: larger(bucket.size, r.size), ..folded(bucket, r) }
}

/// One step of slot coloring.
pub open spec fn slot_step(state: SlotView, r: AliasResource) -> SlotView {
    let (active, (placements, buckets)) = state;
    match first_fit(active, buckets, r, 0) {
        Some(i) => {
            let bucket = active[i].1;
            (
                active.update(i, (r.last_pass, bucket)),
                (
                    placements.insert(r.id, Placement { bucket, offset: 0, size: r.size }),
                    buckets.update(bucket as int, grown(buckets[bucket as int], r)),
                ),
            )
        },
        None => {
            let bucket = buckets.len() as u32;
            (
                active.push((r.last_pass, bucket)),
                (
                    placements.insert(r.id, Placement { bucket, offset: 0, size: r.size }),
                    buckets.push(sole(r)),
                ),
            )
        },
    }
}

/// Slot coloring over the first `n` of `visit`, starting from no open bucket.
pub open spec fn slot_plan(visit: Seq<AliasResource>, n: nat, base: PlanView) -> SlotView
    decreases n,
{
    if n == 0 {
        (Seq::empty(), base)
    } else {
        slot_step(slot_plan(visit, (n - 1) as nat, base), visit[n - 1])
    }
}

/// What one bucket of the packing strategy ends up with: its occupants and their
/// offsets, its requirements, and the candidates that did not fit.
pub type PackView = (Seq<(AliasResource, u64)>, BucketReqs, Seq<AliasResource>);

/// Offers the first `n` of `rest` one after the other to the bucket opened by `seed`.
pub open spec fn pack_bucket(
    seed: AliasResource,
    rest: Seq<AliasResource>,
    n: nat,
    granularity: u64,
) -> PackView
    decreases n,
{
    if n == 0 {
        (seq![(seed, 0u64)], sole(seed), Seq::empty())
    } else {
        let (occupants, bucket, left) = pack_bucket(seed, rest, (n - 1) as nat, granularity);
        let r = rest[n - 1];
        match fitting_offset(r, occupants, bucket.size, granularity) {
            Some(offset) if admits(bucket, r) => (
                occupants.push((r, offset)),
                folded(bucket, r),
                left,
            ),
            _ => (occupants, bucket, left.push(r)),
        }
    }
}

/// The first `n` occupants of a bucket entered into the placements.
pub open spec fn place_occupants(
    placements: Map<u32, Placement>,
    bucket: u32,
    occupants: Seq<(AliasResource, u64)>,
    n: nat,
) -> Map<u32, Placement>
    decreases n,
{
    if n == 0 {
        placements
    } else {
        let (r, offset) = occupants[n - 1];
        place_occupants(placements, bucket, occupants, (n - 1) as nat).insert(
            r.id,
            Placement { bucket, offset, size: r.size },
        )
    }
}

/// A bucket never leaves more candidates over than it was offered.
pub proof fn lemma_pack_bucket_leaves_fewer(
    seed: AliasResource,
    rest: Seq<AliasResource>,
    n: nat,
    granularity: u64,
)
    ensures
        pack_bucket(seed, rest, n, granularity).2.len() <= n,
    decreases n,
{
    if n > 0 {
        lemma_pack_bucket_leaves_fewer(seed, rest, (n - 1) as nat, granularity);
    }
}

/// Bucket packing: the first of `visit` opens a bucket, everything behind it is
/// offered to that bucket, and what is left over starts again.
pub open spec fn bucket_plan(
    visit: Seq<AliasResource>,
    granularity: u64,
    base: PlanView,
) -> PlanView
    decreases visit.len(),
{
    if visit.len() == 0 {
        base
    } else {
        proof {
            lemma_pack_bucket_leaves_fewer(
                visit[0],
                visit.drop_first(),
                visit.drop_first().len(),
                granularity,
            );
        }
        let rest = visit.drop_first();
        let (occupants, bucket, left) = pack_bucket(visit[0], rest, rest.len(), granularity);
        let (placements, buckets) = base;
        bucket_plan(
            left,
            granularity,
            (
                place_occupants(placements, buckets.len() as u32, occupants, occupants.len()),
                buckets.push(bucket),
            ),
        )
    }
}

/// The resource that an id stands for: the last one listed under it.
pub open spec fn with_id(resources: Seq<AliasResource>, id: u32) -> Option<AliasResource>
    decreases resources.len(),
{
    if resources.len() == 0 {
        None
    } else if resources.last().id == id {
        Some(resources.last())
    } else {
        with_id(resources.drop_last(), id)
    }
}

/// The resources of a component, in the order in which it lists their ids.
pub open spec fn members_of(resources: Seq<AliasResource>, component: Seq<u32>) -> Seq<
    AliasResource,
>
    decreases component.len(),
{
    if component.len() == 0 {
        Seq::empty()
    } else {
        let rest = members_of(resources, component.drop_last());
        match with_id(resources, component.last()) {
            Some(r) => rest.push(r),
            None => rest,
        }
    }
}

/// One component placed behind what `base` holds.
pub open spec fn component_plan(
    strategy: AliasStrategy,
    members: Seq<AliasResource>,
    granularity: u64,
    base: PlanView,
) -> PlanView {
    match strategy {
        AliasStrategy::Slot => slot_plan(arranged(members, false), members.len(), base).1,
        AliasStrategy::Bucket => bucket_plan(arranged(members, true), granularity, base),
        AliasStrategy::Off => off_plan(members, members.len(), base),
    }
}

/// The first `n` components placed one after the other.
pub open spec fn plan_of(
    strategy: AliasStrategy,
    resources: Seq<AliasResource>,
    components: Seq<Vec<u32>>,
    granularity: u64,
    n: nat,
) -> PlanView
    decreases n,
{
    if n == 0 {
        (Map::empty(), Seq::empty())
    } else {
        component_plan(
            strategy,
            members_of(resources, components[n - 1]@),
            granularity,
            plan_of(strategy, resources, components, granularity, (n - 1) as nat),
        )
    }
}

/// One bucket per resource: aliasing disabled.
fn plan_off(
    members: &Vec<AliasResource>,
    placements: &mut HashMap<u32, Placement>,
    buckets: &mut Vec<BucketReqs>,
)
    ensures
        (final(placements)@, final(buckets)@) == off_plan(
            members@,
            members@.len(),
            (old(placements)@, old(buckets)@),
        ),
{
    let ghost base = (placements@, buckets@);
    let mut i: usize = 0;
    while i < members.len()
        invariant
            i <= members.len(),
            (placements@, buckets@) == off_plan(members@, i as nat, base),
        decreases members.len() - i,
    {
        let r = members[i];
        placements.insert(
            r.id,
            Placement { bucket: buckets.len() as u32, offset: 0, size: r.size },
        );
        buckets.push(
            BucketReqs {
                size: r.size,
                alignment: r.alignment,
                memory_type_bits: r.memory_type_bits,
                location: r.location,
            },
        );
        i = i + 1;
    }
}

/// Puts the members in the order in which a strategy visits them.
fn arrange(members: &Vec<AliasResource>, largest_first: bool) -> (visit: Vec<AliasResource>)
    ensures
        visit@ == arranged(members@, largest_first),
{
    let mut keys: Vec<(u64, u64)> = Vec::with_capacity(members.len());
    let mut i: usize = 0;
    while i < members.len()
        invariant
            i <= members.len(),
            keys.len() == i,
            forall|k: int|
                0 <= k < i ==> (#[trigger] keys[k].0 as int, keys[k].1 as int) == visit_keys(
                    members@,
                    largest_first,
                )[k],
        decreases members.len() - i,
    {
        let r = members[i];
        let key: (u64, u64) = if largest_first {
            (u64::MAX - r.size, r.id as u64)
        } else {
            (r.first_pass as u64, r.id as u64)
        };
        keys.push(key);
        i = i + 1;
    }
    let order = sort_indices(&keys);
    let ghost wanted = visit_keys(members@, largest_first);
    proof {
        assert forall|k: int| 0 <= k < wanted.len() implies key_view(keys@)[k] == wanted[k] by {
            assert(keys[k].0 as int == wanted[k].0);
        }
        assert(key_view(keys@) =~= wanted);
        crate::render_graph::sorting::lemma_stable_order(wanted);
        assert forall|m: int| 0 <= m < order.len() implies #[trigger] order[m] < members.len() by {
            assert(index_view(order@)[m] == stable_order(wanted)[m]);
        }
    }
    let mut visit: Vec<AliasResource> = Vec::with_capacity(members.len());
    let mut k: usize = 0;
    while k < order.len()
        invariant
            k <= order.len(),
            order.len() == members.len(),
            visit.len() == k,
            index_view(order@) == stable_order(wanted),
            wanted == visit_keys(members@, largest_first),
            forall|m: int| 0 <= m < order.len() ==> #[trigger] order[m] < members.len(),
            forall|m: int| 0 <= m < k ==> visit[m] == members[stable_order(wanted)[m]],
        decreases order.len() - k,
    {
        assert(index_view(order@)[k as int] == order[k as int]);
        visit.push(members[order[k]]);
        k = k + 1;
    }
    visit
}

/// Greedy interval-graph coloring, earliest-start first, first fit.
fn plan_slots(
    members: &Vec<AliasResource>,
    placements: &mut HashMap<u32, Placement>,
    buckets: &mut Vec<BucketReqs>,
)
    ensures
        (final(placements)@, final(buckets)@) == slot_plan(
            arranged(members@, false),
            members@.len(),
            (old(placements)@, old(buckets)@),
        ).1,
{
    let ghost base = (placements@, buckets@);
    let visit = arrange(members, false);
    let mut active: Vec<(usize, u32)> = Vec::new();
    let mut i: usize = 0;
    while i < visit.len()
        invariant
            i <= visit.len(),
            visit@ == arranged(members@, false),
            (active@, (placements@, buckets@)) == slot_plan(visit@, i as nat, base),
            forall|k: int| 0 <= k < active.len() ==> (#[trigger] active[k]).1 < buckets.len(),
        decreases visit.len() - i,
    {
        let r = visit[i];
        let ghost state = slot_plan(visit@, i as nat, base);
        assert(slot_plan(visit@, (i + 1) as nat, base) == slot_step(state, r));
        // Strictly before: lifetimes are inclusive, so a bucket freed on the very
        // pass on which this resource starts is still busy.
        let mut at: usize = 0;
        while at < active.len() && !(active[at].0 < r.first_pass && compatible(
            &buckets[active[at].1 as usize],
            &r,
        ))
            invariant
                at <= active.len(),
                forall|k: int| 0 <= k < active.len() ==> (#[trigger] active[k]).1 < buckets.len(),
                first_fit(active@, buckets@, r, 0) == first_fit(active@, buckets@, r, at as int),
            decreases active.len() - at,
        {
            at = at + 1;
        }
        let bucket: u32 = if at < active.len() {
            assert(first_fit(active@, buckets@, r, 0) == Some(at as int));
            let bucket: u32 = active[at].1;
            let mut reqs = buckets[bucket as usize];
            fold(&mut reqs, &r);
            if reqs.size < r.size {
                reqs.size = r.size;
            }
            buckets.set(bucket as usize, reqs);
            active.set(at, (r.last_pass, bucket));
            bucket
        } else {
            assert(first_fit(active@, buckets@, r, 0) is None);
            let bucket: u32 = buckets.len() as u32;
            proof {
                lemma_truncated_index(buckets.len());
            }
            buckets.push(
                BucketReqs {
                    size: r.size,
                    alignment: r.alignment,
                    memory_type_bits: r.memory_type_bits,
                    location: r.location,
                },
            );
            active.push((r.last_pass, bucket));
            bucket
        };
        placements.insert(r.id, Placement { bucket, offset: 0, size: r.size });
        i = i + 1;
    }
}

proof fn lemma_truncated_index(len: usize)
    ensures
        (len as u32) <= len,
{
    assert((len as u32) <= len) by (bit_vector);
}

/// Bucket packing.
///
/// Largest first: a bucket's capacity is fixed by the resource that seeds it and
/// never grows, so seeding with the largest remaining resource is what makes room
/// for everything else. Each subsequent resource is dropped into the smallest free
/// region that fits, which keeps the big regions intact for the big resources still
/// to come.
fn plan_buckets(
    members: &Vec<AliasResource>,
    granularity: u64,
    placements: &mut HashMap<u32, Placement>,
    buckets: &mut Vec<BucketReqs>,
)
    requires
        granularity > 0,
    ensures
        (final(placements)@, final(buckets)@) == bucket_plan(
            arranged(members@, true),
            granularity,
            (old(placements)@, old(buckets)@),
        ),
{
    let ghost base = (placements@, buckets@);
    let mut unplaced = arrange(members, true);
    let ghost wanted = bucket_plan(unplaced@, granularity, base);
    while unplaced.len() > 0
        invariant
            granularity > 0,
            bucket_plan(unplaced@, granularity, (placements@, buckets@)) == wanted,
        decreases unplaced.len(),
    {
        let ghost rest = unplaced@.drop_first();
        let ghost from = (placements@, buckets@);
        let seed = unplaced[0];
        let bucket: u32 = buckets.len() as u32;
        let mut reqs = BucketReqs {
            size: seed.size,
            alignment: seed.alignment,
            memory_type_bits: seed.memory_type_bits,
            location: seed.location,
        };
        // Each resource of this bucket and its offset, as `fit` reads them.
        let mut occupants: Vec<(AliasResource, u64)> = Vec::new();
        occupants.push((seed, 0));
        placements.insert(seed.id, Placement { bucket, offset: 0, size: seed.size });
        let mut left: Vec<AliasResource> = Vec::new();
        proof {
            assert(occupants@ =~= seq![(seed, 0u64)]);
            reveal_with_fuel(place_occupants, 2);
        }
        let mut i: usize = 1;
        while i < unplaced.len()
            invariant
                granularity > 0,
                1 <= i <= unplaced.len(),
                rest == unplaced@.drop_first(),
                (occupants@, reqs, left@) == pack_bucket(seed, rest, (i - 1) as nat, granularity),
                placements@ == place_occupants(from.0, bucket, occupants@, occupants@.len()),
                left.len() < i,
            decreases unplaced.len() - i,
        {
            let r = unplaced[i];
            assert(r == rest[i - 1]);
            let ghost before = occupants@;
            let offset = if compatible(&reqs, &r) {
                fit(&r, &occupants, reqs.size, granularity)
            } else {
                None
            };
            match offset {
                Some(offset) => {
                    fold(&mut reqs, &r);
                    occupants.push((r, offset));
                    placements.insert(r.id, Placement { bucket, offset, size: r.size });
                    proof {
                        lemma_place_prefix(from.0, bucket, before, occupants@, before.len());
                    }
                },
                None => {
                    left.push(r);
                },
            }
            i = i + 1;
        }
        buckets.push(reqs);
        unplaced = left;
    }
}

proof fn lemma_place_prefix(
    placements: Map<u32, Placement>,
    bucket: u32,
    short: Seq<(AliasResource, u64)>,
    long: Seq<(AliasResource, u64)>,
    n: nat,
)
    requires
        n <= short.len() <= long.len(),
        forall|i: int| 0 <= i < n ==> short[i] == long[i],
    ensures
        place_occupants(placements, bucket, short, n) == place_occupants(
            placements,
            bucket,
            long,
            n,
        ),
    decreases n,
{
    if n > 0 {
        lemma_place_prefix(placements, bucket, short, long, (n - 1) as nat);
    }
}

/// Assign every resource in `resources` a bucket and an offset.
///
/// `components` groups resource ids that may alias each other: one entry per
/// component of the passes. Aliasing is computed independently
/// per group; bucket ids are global, so `buckets[p.bucket]` indexes the returned
/// `Vec` regardless of which component a resource came from. Ids not present in
/// `resources` are ignored, and a resource in no component is not placed.
///
/// `granularity` is the device's buffer-image granularity; pass 1 to disable the
/// padding. It only bites the bucket strategy: under `Slot` members never co-occupy.
///
/// The output is a function of the input: same input, same placement, every time.
pub fn plan(
    strategy: AliasStrategy,
    resources: &Vec<AliasResource>,
    components: &Vec<Vec<u32>>,
    granularity: u64,
) -> (planned: (HashMap<u32, Placement>, Vec<BucketReqs>))
    requires
        forall|i: int|
            0 <= i < resources.len() ==> is_power_of_two((#[trigger] resources[i]).alignment),
    ensures
        (planned.0@, planned.1@) == plan_of(
            strategy,
            resources@,
            components@,
            larger(granularity, 1),
            components@.len(),
        ),
{
    let granularity: u64 = if granularity == 0 {
        1
    } else {
        granularity
    };
    let mut by_id: HashMap<u32, AliasResource> = HashMap::new();
    let mut i: usize = 0;
    while i < resources.len()
        invariant
            i <= resources.len(),
            forall|id: u32| #[trigger]
                by_id@.contains_key(id) <==> with_id(resources@.take(i as int), id) is Some,
            forall|id: u32| #[trigger]
                by_id@.contains_key(id) ==> Some(by_id@[id]) == with_id(
                    resources@.take(i as int),
                    id,
                ),
        decreases resources.len() - i,
    {
        let r = resources[i];
        proof {
            assert(resources@.take(i + 1).drop_last() =~= resources@.take(i as int));
        }
        by_id.insert(r.id, r);
        i = i + 1;
    }
    proof {
        assert(resources@.take(i as int) =~= resources@);
    }
    let mut placements: HashMap<u32, Placement> = HashMap::new();
    let mut buckets: Vec<BucketReqs> = Vec::new();
    let mut c: usize = 0;
    while c < components.len()
        invariant
            granularity > 0,
            c <= components.len(),
            forall|id: u32| #[trigger]
                by_id@.contains_key(id) <==> with_id(resources@, id) is Some,
            forall|id: u32| #[trigger]
                by_id@.contains_key(id) ==> Some(by_id@[id]) == with_id(resources@, id),
            (placements@, buckets@) == plan_of(
                strategy,
                resources@,
                components@,
                granularity,
                c as nat,
            ),
        decreases components.len() - c,
    {
        let component = &components[c];
        let mut members: Vec<AliasResource> = Vec::with_capacity(component.len());
        let mut k: usize = 0;
        while k < component.len()
            invariant
                k <= component.len(),
                forall|id: u32| #[trigger]
                    by_id@.contains_key(id) <==> with_id(resources@, id) is Some,
                forall|id: u32| #[trigger]
                    by_id@.contains_key(id) ==> Some(by_id@[id]) == with_id(resources@, id),
                members@ == members_of(resources@, component@.take(k as int)),
            decreases component.len() - k,
        {
            proof {
                assert(component@.take(k + 1).drop_last() =~= component@.take(k as int));
            }
            if let Some(r) = by_id.get(&component[k]) {
                members.push(*r);
            }
            k = k + 1;
        }
        proof {
            assert(component@.take(k as int) =~= component@);
        }
        match strategy {
            AliasStrategy::Slot => plan_slots(&members, &mut placements, &mut buckets),
            AliasStrategy::Bucket => plan_buckets(
                &members,
                granularity,
                &mut placements,
                &mut buckets,
            ),
            AliasStrategy::Off => plan_off(&members, &mut placements, &mut buckets),
        }
        c = c + 1;
    }
    (placements, buckets)
}

// ---------------------------------------------------------------------------
// Measures
// ---------------------------------------------------------------------------

/// The sum of all bucket sizes.
pub open spec fn bytes_of(buckets: Seq<BucketReqs>) -> int
    decreases buckets.len(),
{
    if buckets.len() == 0 {
        0
    } else {
        bytes_of(buckets.drop_last()) + buckets.last().size
    }
}

proof fn lemma_bytes_of_prefix(buckets: Seq<BucketReqs>, n: int)
    requires
        0 <= n <= buckets.len(),
    ensures
        0 <= bytes_of(buckets.take(n)) <= bytes_of(buckets),
    decreases buckets.len(),
{
    if n < buckets.len() {
        lemma_bytes_of_prefix(buckets.drop_last(), n);
        assert(buckets.drop_last().take(n) =~= buckets.take(n));
    } else {
        assert(buckets.take(n) =~= buckets);
        if n > 0 {
            lemma_bytes_of_prefix(buckets.drop_last(), n - 1);
        }
    }
}

/// Total bytes the placement asks the allocator for.
pub fn total_bytes(buckets: &Vec<BucketReqs>) -> (total: u64)
    requires
        bytes_of(buckets@) <= u64::MAX,
    ensures
        total == bytes_of(buckets@),
{
    let mut total: u64 = 0;
    let mut i: usize = 0;
    while i < buckets.len()
        invariant
            i <= buckets.len(),
            bytes_of(buckets@) <= u64::MAX,
            total == bytes_of(buckets@.take(i as int)),
        decreases buckets.len() - i,
    {
        proof {
            assert(buckets@.take(i + 1).drop_last() =~= buckets@.take(i as int));
            lemma_bytes_of_prefix(buckets@, i + 1);
        }
        total = total + buckets[i].size;
        i = i + 1;
    }
    proof {
        assert(buckets@.take(i as int) =~= buckets@);
    }
    total
}

/// Whether a resource is live at a pass.
pub open spec fn live_at(r: AliasResource, pass: int) -> bool {
    r.first_pass <= pass <= r.last_pass
}

/// The total size of the resources live at a pass.
pub open spec fn live_bytes(resources: Seq<AliasResource>, pass: int) -> int
    decreases resources.len(),
{
    if resources.len() == 0 {
        0
    } else {
        live_bytes(resources.drop_last(), pass) + if live_at(resources.last(), pass) {
            resources.last().size as int
        } else {
            0
        }
    }
}

proof fn lemma_live_bytes_prefix(resources: Seq<AliasResource>, pass: int, n: int)
    requires
        0 <= n <= resources.len(),
    ensures
        0 <= live_bytes(resources.take(n), pass) <= live_bytes(resources, pass),
    decreases resources.len(),
{
    if n < resources.len() {
        lemma_live_bytes_prefix(resources.drop_last(), pass, n);
        assert(resources.drop_last().take(n) =~= resources.take(n));
    } else {
        assert(resources.take(n) =~= resources);
        if n > 0 {
            lemma_live_bytes_prefix(resources.drop_last(), pass, n - 1);
        }
    }
}

proof fn lemma_nothing_live_after(resources: Seq<AliasResource>, last: int, pass: int)
    requires
        forall|i: int| 0 <= i < resources.len() ==> (#[trigger] resources[i]).last_pass <= last,
        pass > last,
    ensures
        live_bytes(resources, pass) == 0,
    decreases resources.len(),
{
    if resources.len() > 0 {
        assert(resources[resources.len() - 1].last_pass <= last);
        assert forall|i: int| 0 <= i < resources.drop_last().len() implies (
        #[trigger] resources.drop_last()[i]).last_pass <= last by {
            assert(resources[i].last_pass <= last);
        }
        lemma_nothing_live_after(resources.drop_last(), last, pass);
    }
}

/// The total size of the resources live at `pass`.
fn live_bytes_at(resources: &Vec<AliasResource>, pass: usize) -> (total: u64)
    requires
        live_bytes(resources@, pass as int) <= u64::MAX,
    ensures
        total == live_bytes(resources@, pass as int),
{
    let mut total: u64 = 0;
    let mut i: usize = 0;
    while i < resources.len()
        invariant
            i <= resources.len(),
            live_bytes(resources@, pass as int) <= u64::MAX,
            total == live_bytes(resources@.take(i as int), pass as int),
        decreases resources.len() - i,
    {
        proof {
            assert(resources@.take(i + 1).drop_last() =~= resources@.take(i as int));
            lemma_live_bytes_prefix(resources@, pass as int, i + 1);
        }
        let r = resources[i];
        if r.first_pass <= pass && pass <= r.last_pass {
            total = total + r.size;
        }
        i = i + 1;
    }
    proof {
        assert(resources@.take(i as int) =~= resources@);
    }
    total
}

/// Whether `bound` is the most that is live at any one pass, zero where nothing is.
pub open spec fn is_live_peak(resources: Seq<AliasResource>, bound: int) -> bool {
    &&& forall|pass: int| 0 <= pass ==> #[trigger] live_bytes(resources, pass) <= bound
    &&& bound == 0 || exists|pass: int|
        0 <= pass && #[trigger] live_bytes(resources, pass) == bound
}

/// The best any aliasing scheme could do: the largest total size of resources
/// simultaneously live at any single pass. A placement can only ever meet or exceed
/// this, so `total_bytes / lower_bound` is a strategy's efficiency.
///
/// Ignores alignment and memory-type incompatibility, so it is a lower bound and
/// not necessarily achievable.
pub fn live_bytes_lower_bound(resources: &Vec<AliasResource>) -> (bound: u64)
    requires
        forall|pass: int| #[trigger] live_bytes(resources@, pass) <= u64::MAX,
    ensures
        is_live_peak(resources@, bound as int),
{
    if resources.len() == 0 {
        return 0;
    }
    let mut last: usize = 0;
    let mut i: usize = 0;
    while i < resources.len()
        invariant
            i <= resources.len(),
            forall|k: int| 0 <= k < i ==> (#[trigger] resources[k]).last_pass <= last,
        decreases resources.len() - i,
    {
        if resources[i].last_pass > last {
            last = resources[i].last_pass;
        }
        i = i + 1;
    }
    let mut bound: u64 = live_bytes_at(resources, 0);
    let mut pass: usize = 0;
    while pass < last
        invariant
            pass <= last,
            forall|p: int| #[trigger] live_bytes(resources@, p) <= u64::MAX,
            forall|p: int| 0 <= p <= pass ==> #[trigger] live_bytes(resources@, p) <= bound,
            exists|p: int| 0 <= p && #[trigger] live_bytes(resources@, p) == bound,
        decreases last - pass,
    {
        pass = pass + 1;
        let here: u64 = live_bytes_at(resources, pass);
        if here > bound {
            bound = here;
        }
    }
    proof {
        assert forall|p: int| 0 <= p implies #[trigger] live_bytes(resources@, p) <= bound by {
            if p > last {
                lemma_nothing_live_after(resources@, last as int, p);
            }
        }
    }
    bound
}

} // verus!
