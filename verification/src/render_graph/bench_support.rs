//! Random render graphs, for trying the aliasing policy on graphs far bigger and messier
//! than one writes by hand.
//!
//! What is made up is what passes declare; lifetimes, hazards and components come from
//! the same analysis that a frame is compiled with.

use std::collections::HashMap;

use rand::{RngExt, SeedableRng};
use rand::rngs::StdRng;
use vk_sync_fork::AccessType;
use vstd::prelude::*;

use crate::render_graph::access::{PassResourceAccessSyncType, PassResourceAccessType, ResourceRef};
use crate::render_graph::alias::{AliasResource, MemoryLocation, Placement};
use crate::render_graph::aliasing_report::{barrier_count, count_barriers};
use crate::render_graph::analysis::{
    analyzable, analyze_passes, touches, usage_matches, usages_match, usages_of, PassAnalysis,
    PassDecl,
};
use crate::render_graph::analysis_laws::{
    law_edges_are_few, law_schedule_is_declaration_order, lemma_touches_in_order,
};
use crate::render_graph::barriers::{plan_barriers, ResourceBarrier, Transition};
use crate::render_graph::compile::{
    counting, frame_barriers, in_order, lemma_lifetimes_inside, recorded, recorded_views,
    schedule_positions,
};
use crate::render_graph::dep_graph::node_weights;
use crate::render_graph::frame_laws::{lemma_places, names};
use crate::render_graph::graph_debug::copy_ids;
use crate::render_graph::predecessors::{addressable, Usages};
use crate::render_graph::resource::{BufferDesc, GraphResourceDesc, GraphResourceInfo, ImageDesc};
use crate::render_graph::schedule::kahn_toposort;

verus! {

broadcast use {vstd::std_specs::hash::group_hash_axioms, vstd::std_specs::btree::group_btree_axioms};

// ---------------------------------------------------------------------------
// Chance
// ---------------------------------------------------------------------------

/// `rand`'s standard generator.
#[verifier::external_type_specification]
#[verifier::external_body]
pub struct ExStdRng(rand::rngs::StdRng);

/// The generator that `SeedableRng::seed_from_u64` makes of a seed.
pub uninterp spec fn seeded_rng(seed: u64) -> StdRng;

/// What `RngExt::random_range` draws as a `u32` from `low` to `high`, and the generator
/// behind the draw.
pub uninterp spec fn drawn_u32(rng: StdRng, low: u32, high: u32) -> (u32, StdRng);

/// What `RngExt::random_range` draws as a `u64` from `low` to `high`, and the generator
/// behind the draw.
pub uninterp spec fn drawn_u64(rng: StdRng, low: u64, high: u64) -> (u64, StdRng);

/// What `RngExt::random_range` draws as a `usize` from `low` to `high`, and the generator
/// behind the draw.
pub uninterp spec fn drawn_usize(rng: StdRng, low: usize, high: usize) -> (usize, StdRng);

/// `SeedableRng::seed_from_u64`: the generator of a seed. The seed alone decides how it
/// starts; another release of `rand` may start it otherwise.
#[verifier::external_body]
fn seeded(seed: u64) -> (rng: StdRng)
    ensures
        rng == seeded_rng(seed),
{
    StdRng::seed_from_u64(seed)
}

/// `RngExt::random_range` on `u32`: a number from `low` to `high`, both of them possible.
/// The state of the generator and the bounds alone decide which, and what state the
/// generator is left in.
#[verifier::external_body]
fn draw_u32(rng: &mut StdRng, low: u32, high: u32) -> (drawn: u32)
    requires
        low <= high,
    ensures
        low <= drawn <= high,
        (drawn, *final(rng)) == drawn_u32(*old(rng), low, high),
{
    rng.random_range(low..=high)
}

/// `RngExt::random_range` on `u64`: a number from `low` to `high`, both of them possible.
/// The state of the generator and the bounds alone decide which, and what state the
/// generator is left in.
#[verifier::external_body]
fn draw_u64(rng: &mut StdRng, low: u64, high: u64) -> (drawn: u64)
    requires
        low <= high,
    ensures
        low <= drawn <= high,
        (drawn, *final(rng)) == drawn_u64(*old(rng), low, high),
{
    rng.random_range(low..=high)
}

/// `RngExt::random_range` on `usize`: a number from `low` to `high`, both of them
/// possible. The state of the generator and the bounds alone decide which, and what
/// state the generator is left in.
#[verifier::external_body]
fn draw_usize(rng: &mut StdRng, low: usize, high: usize) -> (drawn: usize)
    requires
        low <= high,
    ensures
        low <= drawn <= high,
        (drawn, *final(rng)) == drawn_usize(*old(rng), low, high),
{
    rng.random_range(low..=high)
}

// ---------------------------------------------------------------------------
// Parameters
// ---------------------------------------------------------------------------

/// The shape of a generated graph. The defaults are roughly a heavy frame: a few hundred
/// resources over a few dozen passes.
#[derive(Clone, Copy, Debug, PartialEq, Eq, Structural)]
pub struct GenParams {
    pub resources: usize,
    pub passes: usize,
    /// How many passes a resource stays live past its producer, at most. Small relative to
    /// `passes` is what makes aliasing possible at all.
    pub max_lifetime: usize,
    /// How many reads a pass declares, at most.
    pub reads_per_pass: usize,
    /// The chance in a hundred that a pass writes a resource again.
    pub rewrite_percent: u32,
}

impl Default for GenParams {
    fn default() -> (params: Self)
        ensures
            params == (GenParams {
                resources: 256,
                passes: 64,
                max_lifetime: 8,
                reads_per_pass: 4,
                rewrite_percent: 20,
            }),
    {
        GenParams {
            resources: 256,
            passes: 64,
            max_lifetime: 8,
            reads_per_pass: 4,
            rewrite_percent: 20,
        }
    }
}

impl GenParams {
    /// There is at least one resource.
    pub open spec fn resource_count(self) -> int {
        if self.resources > 0 {
            self.resources as int
        } else {
            1
        }
    }

    /// There is at least one pass.
    pub open spec fn pass_count(self) -> int {
        if self.passes > 0 {
            self.passes as int
        } else {
            1
        }
    }

    /// The numbers of the graph fit: resource ids into 32 bits, the pass graph into
    /// 32-bit indices, and what is computed of them into a word.
    pub open spec fn fits(self) -> bool {
        let n = self.resource_count();
        let passes = self.pass_count();
        &&& n <= u32::MAX
        &&& passes < u32::MAX
        &&& n * passes <= usize::MAX
        &&& self.reads_per_pass <= u32::MAX
        &&& 2 * (passes * (self.reads_per_pass + 1) + n) <= u32::MAX
    }

    /// The pass that makes a resource: resources are spread evenly over the passes.
    pub open spec fn producer(self, r: int) -> int {
        r * self.pass_count() / self.resource_count()
    }
}

// ---------------------------------------------------------------------------
// Resources
// ---------------------------------------------------------------------------

/// What is drawn for one resource.
#[derive(Clone, Copy, Debug, PartialEq, Eq, Structural)]
pub struct ResourceRoll {
    pub size_log: u32,
    pub jitter: u64,
    pub alignment_log: u32,
    pub memory_roll: u32,
    pub location_roll: u32,
    pub kind_roll: u32,
}

/// Two to the power of `log`.
pub open spec fn power(log: u32) -> int {
    vstd::arithmetic::power2::pow2(log as nat) as int
}

impl ResourceRoll {
    /// Every draw lies in its range.
    pub open spec fn in_range(self) -> bool {
        &&& 10 <= self.size_log <= 24
        &&& self.jitter < power(self.size_log)
        &&& 8 <= self.alignment_log <= 16
        &&& self.memory_roll <= 9
        &&& self.location_roll <= 9
        &&& self.kind_roll <= 1
    }

    /// A power of two and a bit more.
    pub open spec fn size(self) -> u64 {
        (power(self.size_log) + self.jitter) as u64
    }

    pub open spec fn alignment(self) -> u64 {
        power(self.alignment_log) as u64
    }

    /// Most resources accept any memory type; a few are restricted.
    pub open spec fn memory_type_bits(self) -> u32 {
        if self.memory_roll == 0 {
            0b0011
        } else if self.memory_roll == 1 {
            0b1100
        } else {
            0b1111
        }
    }

    pub open spec fn location(self) -> MemoryLocation {
        if self.location_roll == 0 {
            MemoryLocation::CpuToGpu
        } else {
            MemoryLocation::GpuOnly
        }
    }

    /// The resource as a graph makes it.
    pub open spec fn info(self) -> GraphResourceInfo {
        GraphResourceInfo::Created(
            if self.kind_roll == 0 {
                GraphResourceDesc::Image(
                    ImageDesc {
                        extent: (64, 64, 1),
                        format: FORMAT_R8G8B8A8_UNORM,
                        tiling: TILING_OPTIMAL,
                        location: self.location(),
                        usage: IMAGE_USAGE_STORAGE_AND_SOURCE,
                        name: "gen_image",
                    },
                )
            } else {
                GraphResourceDesc::Buffer(
                    BufferDesc {
                        byte_size: self.size(),
                        alignment: self.alignment(),
                        memory_location: self.location(),
                        usage: BUFFER_USAGE_STORAGE_AND_SOURCE,
                        name: "gen_buffer",
                    },
                )
            },
        )
    }

    /// The resource as the planner takes it, before its lifetime is known.
    pub open spec fn alias(self, id: u32) -> AliasResource {
        AliasResource {
            id,
            size: self.size(),
            alignment: self.alignment(),
            memory_type_bits: self.memory_type_bits(),
            location: self.location(),
            first_pass: 0,
            last_pass: 0,
        }
    }
}

// Vulkan numbers of what is generated.
pub const FORMAT_R8G8B8A8_UNORM: i32 = 37;

pub const TILING_OPTIMAL: i32 = 0;

pub const IMAGE_USAGE_STORAGE_AND_SOURCE: u32 = 9;

pub const BUFFER_USAGE_STORAGE_AND_SOURCE: u32 = 33;

/// Two to the power of `log`.
fn shifted(log: u32) -> (r: u64)
    requires
        log <= 24,
    ensures
        r == power(log),
        0 < r <= 0x100_0000,
{
    proof {
        vstd::arithmetic::power2::lemma_pow2_pos(log as nat);
        if log < 24 {
            vstd::arithmetic::power2::lemma_pow2_strictly_increases(log as nat, 24);
        }
        vstd::arithmetic::power2::lemma2_to64();
        vstd::bits::lemma_u64_shl_is_mul(1, log as u64);
    }
    1u64 << log
}

/// Makes a resource of what was drawn for it.
pub fn resource_from(roll: &ResourceRoll, id: u32) -> (made: (GraphResourceInfo, AliasResource))
    requires
        roll.in_range(),
    ensures
        made.0 == roll.info(),
        made.1 == roll.alias(id),
{
    let size: u64 = shifted(roll.size_log) + roll.jitter;
    let alignment: u64 = shifted(roll.alignment_log);
    let memory_type_bits: u32 = match roll.memory_roll {
        0 => 0b0011,
        1 => 0b1100,
        _ => 0b1111,
    };
    let location = if roll.location_roll == 0 {
        MemoryLocation::CpuToGpu
    } else {
        MemoryLocation::GpuOnly
    };
    let desc = if roll.kind_roll == 0 {
        GraphResourceDesc::Image(
            ImageDesc {
                extent: (64, 64, 1),
                format: FORMAT_R8G8B8A8_UNORM,
                tiling: TILING_OPTIMAL,
                location,
                usage: IMAGE_USAGE_STORAGE_AND_SOURCE,
                name: "gen_image",
            },
        )
    } else {
        GraphResourceDesc::Buffer(
            BufferDesc {
                byte_size: size,
                alignment,
                memory_location: location,
                usage: BUFFER_USAGE_STORAGE_AND_SOURCE,
                name: "gen_buffer",
            },
        )
    };
    let alias = AliasResource {
        id,
        size,
        alignment,
        memory_type_bits,
        location,
        first_pass: 0,
        last_pass: 0,
    };
    (GraphResourceInfo::Created(desc), alias)
}

/// What a generator draws for one resource, and the generator behind the draws.
pub open spec fn roll_of(rng: StdRng) -> (ResourceRoll, StdRng) {
    let (size_log, rng) = drawn_u32(rng, 10, 24);
    let (jitter, rng) = drawn_u64(rng, 0, (power(size_log) - 1) as u64);
    let (alignment_log, rng) = drawn_u32(rng, 8, 16);
    let (memory_roll, rng) = drawn_u32(rng, 0, 9);
    let (location_roll, rng) = drawn_u32(rng, 0, 9);
    let (kind_roll, rng) = drawn_u32(rng, 0, 1);
    (
        ResourceRoll { size_log, jitter, alignment_log, memory_roll, location_roll, kind_roll },
        rng,
    )
}

/// What a generator draws for `n` resources, one after the other.
pub open spec fn rolls_of(rng: StdRng, n: nat) -> (Seq<ResourceRoll>, StdRng)
    decreases n,
{
    if n == 0 {
        (Seq::empty(), rng)
    } else {
        let (rest, rng) = rolls_of(rng, (n - 1) as nat);
        let (roll, rng) = roll_of(rng);
        (rest.push(roll), rng)
    }
}

/// Draws a resource.
fn roll_resource(rng: &mut StdRng) -> (roll: ResourceRoll)
    ensures
        roll.in_range(),
        (roll, *final(rng)) == roll_of(*old(rng)),
{
    let size_log: u32 = draw_u32(rng, 10, 24);
    let jitter: u64 = draw_u64(rng, 0, shifted(size_log) - 1);
    let alignment_log: u32 = draw_u32(rng, 8, 16);
    let memory_roll: u32 = draw_u32(rng, 0, 9);
    let location_roll: u32 = draw_u32(rng, 0, 9);
    let kind_roll: u32 = draw_u32(rng, 0, 1);
    ResourceRoll { size_log, jitter, alignment_log, memory_roll, location_roll, kind_roll }
}

// ---------------------------------------------------------------------------
// Passes
// ---------------------------------------------------------------------------

/// The accesses that generated passes write with.
pub open spec fn write_choices() -> Seq<AccessType> {
    seq![
        AccessType::ComputeShaderWrite,
        AccessType::AnyShaderWrite,
        AccessType::TransferWrite,
        AccessType::ColorAttachmentWrite,
    ]
}

/// The accesses that generated passes read with.
pub open spec fn read_choices() -> Seq<AccessType> {
    seq![
        AccessType::ComputeShaderReadOther,
        AccessType::ComputeShaderReadSampledImageOrUniformTexelBuffer,
        AccessType::RayTracingShaderReadOther,
        AccessType::AnyShaderReadOther,
        AccessType::TransferRead,
    ]
}

fn write_choice(i: usize) -> (access: AccessType)
    requires
        i < 4,
    ensures
        access == write_choices()[i as int],
{
    match i {
        0 => AccessType::ComputeShaderWrite,
        1 => AccessType::AnyShaderWrite,
        2 => AccessType::TransferWrite,
        _ => AccessType::ColorAttachmentWrite,
    }
}

fn read_choice(i: usize) -> (access: AccessType)
    requires
        i < 5,
    ensures
        access == read_choices()[i as int],
{
    match i {
        0 => AccessType::ComputeShaderReadOther,
        1 => AccessType::ComputeShaderReadSampledImageOrUniformTexelBuffer,
        2 => AccessType::RayTracingShaderReadOther,
        3 => AccessType::AnyShaderReadOther,
        _ => AccessType::TransferRead,
    }
}

/// A declaration of a resource.
pub open spec fn gen_ref(id: u32, access_type: AccessType) -> ResourceRef {
    ResourceRef {
        id,
        access: PassResourceAccessType {
            access_type,
            sync_type: PassResourceAccessSyncType::AlwaysSync,
        },
    }
}

fn res_ref(id: u32, access_type: AccessType) -> (r: ResourceRef)
    ensures
        r == gen_ref(id, access_type),
{
    ResourceRef {
        id,
        access: PassResourceAccessType {
            access_type,
            sync_type: PassResourceAccessSyncType::AlwaysSync,
        },
    }
}

/// Whether a declaration writes resource `id` with one of the accesses for writing.
pub open spec fn writes_it(r: ResourceRef, id: int) -> bool {
    r.id == id && r == gen_ref(r.id, r.access.access_type) && write_choices().contains(
        r.access.access_type,
    )
}

/// Whether a declaration reads resource `id` with one of the accesses for reading.
pub open spec fn reads_it(r: ResourceRef, id: int) -> bool {
    r.id == id && r == gen_ref(r.id, r.access.access_type) && read_choices().contains(
        r.access.access_type,
    )
}

/// What a pass reads, and what it writes.
pub type PassRefs = (Seq<ResourceRef>, Seq<ResourceRef>);

/// What passes declare.
pub open spec fn declared(passes: Seq<PassDecl>) -> Seq<PassRefs> {
    Seq::new(passes.len(), |p: int| (passes[p].0@, passes[p].1@))
}

/// The reads that `n` draws make: each of one of the last `window` resources that were
/// made, and nothing where the pass reads it already.
pub open spec fn read_draws(rng: StdRng, available: int, window: int, n: nat) -> (
    Seq<ResourceRef>,
    StdRng,
)
    decreases n,
{
    if n == 0 {
        (Seq::empty(), rng)
    } else {
        let (reads, rng) = read_draws(rng, available, window, (n - 1) as nat);
        let (back, rng) = drawn_usize(rng, 0, (window - 1) as usize);
        let id = (available - 1 - back) as u32;
        if names(reads, id) {
            (reads, rng)
        } else {
            let (choice, rng) = drawn_usize(rng, 0, 4);
            (reads.push(gen_ref(id, read_choices()[choice as int])), rng)
        }
    }
}

/// The writes of the `n` resources that a pass makes, from `available` on.
pub open spec fn made_draws(rng: StdRng, available: int, n: nat) -> (Seq<ResourceRef>, StdRng)
    decreases n,
{
    if n == 0 {
        (Seq::empty(), rng)
    } else {
        let (writes, rng) = made_draws(rng, available, (n - 1) as nat);
        let (choice, rng) = drawn_usize(rng, 0, 3);
        (
            writes.push(gen_ref((available + n - 1) as u32, write_choices()[choice as int])),
            rng,
        )
    }
}

impl GenParams {
    /// `k` resources are made before pass `p`.
    pub open spec fn made_before(self, p: int, k: int) -> bool {
        &&& 0 <= k <= self.resource_count()
        &&& forall|r: int|
            0 <= r < self.resource_count() ==> (r < k <==> #[trigger] self.producer(r) < p)
    }

    /// A resource that pass `p` may touch again, where `available` were made before it:
    /// one whose producer is not too long past.
    pub open spec fn recent(self, p: int, available: int, id: int) -> bool {
        0 <= id < available && p - self.producer(id) <= self.max_lifetime
    }

    /// What pass `p` may read where `available` resources were made before it: recent
    /// ones, each once, and no more than the parameters allow.
    pub open spec fn may_read(self, reads: Seq<ResourceRef>, p: int, available: int) -> bool {
        &&& reads.len() <= self.reads_per_pass
        &&& forall|i: int|
            0 <= i < reads.len() ==> self.recent(p, available, (#[trigger] reads[i]).id as int)
                && reads_it(reads[i], reads[i].id as int)
        &&& forall|i: int, j: int| #![trigger reads[i], reads[j]]
            0 <= i < j < reads.len() ==> reads[i].id != reads[j].id
    }

    /// What pass `p` may write where `available` resources were made before it and `made`
    /// after it: now and then a recent one again, and then those it makes, in order.
    pub open spec fn may_write(
        self,
        writes: Seq<ResourceRef>,
        p: int,
        available: int,
        made: int,
    ) -> bool {
        let again = writes.len() - (made - available);
        &&& again == 0 || again == 1
        &&& again == 1 ==> self.rewrite_percent > 0 && self.recent(
            p,
            available,
            writes[0].id as int,
        ) && writes_it(writes[0], writes[0].id as int)
        &&& again == 0 ==> self.window(p) == 0 || self.rewrite_percent < 100
        &&& forall|i: int|
            0 <= i < made - available ==> writes_it(#[trigger] writes[again + i], available + i)
    }

    /// Whether a pass is one that may be generated as pass `p`.
    pub open spec fn may_declare(self, pass: PassDecl, p: int) -> bool {
        exists|available: int, made: int|
            {
                &&& #[trigger] self.made_before(p, available)
                &&& #[trigger] self.made_before(p + 1, made)
                &&& available <= made
                &&& self.may_read(pass.0@, p, available)
                &&& self.may_write(pass.1@, p, available, made)
            }
    }

    /// How many resources are made before pass `p`.
    pub open spec fn made(self, p: int) -> int {
        choose|k: int| self.made_before(p, k)
    }

    /// Whether pass `p` lies between the producer of a resource and the last pass that may
    /// touch it.
    pub open spec fn lives_in(self, id: u32, p: int) -> bool {
        self.producer(id as int) <= p <= self.producer(id as int) + self.max_lifetime
    }

    /// Whether a resource lives from its producer on, and no longer than it may.
    pub open spec fn lives_as_long(self, r: AliasResource) -> bool {
        &&& r.first_pass == self.producer(r.id as int)
        &&& r.first_pass <= r.last_pass
        &&& r.last_pass - r.first_pass <= self.max_lifetime
    }

    /// How many resources pass `p` may touch again: those made before it, but for those
    /// whose producer is too long past. They are the last that were made.
    pub open spec fn window(self, p: int) -> int {
        self.made(p) - self.made(p - self.max_lifetime)
    }

    /// The reads that a generator draws for pass `p`.
    pub open spec fn reads_of(self, rng: StdRng, p: int) -> (Seq<ResourceRef>, StdRng) {
        if self.window(p) == 0 {
            (Seq::empty(), rng)
        } else {
            let (count, rng) = drawn_usize(rng, 0, self.reads_per_pass);
            read_draws(rng, self.made(p), self.window(p), count as nat)
        }
    }

    /// The resource that a generator draws for pass `p` to write again, if it does.
    pub open spec fn again_of(self, rng: StdRng, p: int) -> (Seq<ResourceRef>, StdRng) {
        if self.window(p) == 0 {
            (Seq::empty(), rng)
        } else {
            let (roll, rng) = drawn_u32(rng, 0, 99);
            if roll < self.rewrite_percent {
                let (back, rng) = drawn_usize(rng, 0, (self.window(p) - 1) as usize);
                let (choice, rng) = drawn_usize(rng, 0, 3);
                (
                    seq![
                        gen_ref(
                            (self.made(p) - 1 - back) as u32,
                            write_choices()[choice as int],
                        ),
                    ],
                    rng,
                )
            } else {
                (Seq::empty(), rng)
            }
        }
    }

    /// What a generator draws for pass `p`: its reads, and its writes.
    pub open spec fn pass_of(self, rng: StdRng, p: int) -> (PassRefs, StdRng) {
        let available = self.made(p);
        let (reads, rng) = self.reads_of(rng, p);
        let (again, rng) = self.again_of(rng, p);
        let (own, rng) = made_draws(rng, available, (self.made(p + 1) - available) as nat);
        ((reads, again + own), rng)
    }

    /// What a generator draws for the first `n` passes, one after the other.
    pub open spec fn passes_of(self, rng: StdRng, n: nat) -> (Seq<PassRefs>, StdRng)
        decreases n,
    {
        if n == 0 {
            (Seq::empty(), rng)
        } else {
            let (rest, rng) = self.passes_of(rng, (n - 1) as nat);
            let (pass, rng) = self.pass_of(rng, n - 1);
            (rest.push(pass), rng)
        }
    }

    proof fn lemma_producer_grows(self, r: int, s: int)
        requires
            0 <= r <= s,
        ensures
            self.producer(r) <= self.producer(s),
    {
        vstd::arithmetic::mul::lemma_mul_inequality(r, s, self.pass_count());
        vstd::arithmetic::div_mod::lemma_div_is_ordered(
            r * self.pass_count(),
            s * self.pass_count(),
            self.resource_count(),
        );
    }

    proof fn lemma_producer_bounded(self, r: int)
        requires
            0 <= r < self.resource_count(),
        ensures
            0 <= self.producer(r) < self.pass_count(),
    {
        let n = self.resource_count();
        let passes = self.pass_count();
        assert(r * passes <= n * passes - passes) by (nonlinear_arith)
            requires
                0 <= r < n,
                passes > 0,
        ;
        assert(r * passes >= 0) by (nonlinear_arith)
            requires
                0 <= r,
                passes > 0,
        ;
        assert((r * passes) / n < passes && (r * passes) / n >= 0) by (nonlinear_arith)
            requires
                0 <= r * passes <= n * passes - passes,
                n > 0,
                passes > 0,
        ;
    }
}

/// Whether a resource is among the declarations.
fn is_named(refs: &Vec<ResourceRef>, id: u32) -> (r: bool)
    ensures
        r == names(refs@, id),
{
    let mut i: usize = 0;
    while i < refs.len()
        invariant
            i <= refs.len(),
            forall|k: int| 0 <= k < i ==> (#[trigger] refs@[k]).id != id,
        decreases refs.len() - i,
    {
        if refs[i].id == id {
            return true;
        }
        i = i + 1;
    }
    false
}

/// Draws the reads of pass `p`.
fn roll_reads(
    rng: &mut StdRng,
    params: &GenParams,
    p: usize,
    available: usize,
    window: usize,
) -> (reads: Vec<ResourceRef>)
    requires
        0 < window <= available <= u32::MAX,
        params.made_before(p as int, available as int),
        params.made_before(p - params.max_lifetime, available - window),
    ensures
        params.may_read(reads@, p as int, available as int),
        (reads@, *final(rng)) == params.reads_of(*old(rng), p as int),
{
    proof {
        params.lemma_made(p as int, available as int);
        params.lemma_made(p - params.max_lifetime, available - window);
    }
    let count: usize = draw_usize(rng, 0, params.reads_per_pass);
    let ghost counted = *rng;
    let mut reads: Vec<ResourceRef> = Vec::new();
    let mut i: usize = 0;
    while i < count
        invariant
            0 < window <= available <= u32::MAX,
            params.made_before(p as int, available as int),
            params.made_before(p - params.max_lifetime, available - window),
            i <= count <= params.reads_per_pass,
            reads.len() <= i,
            params.may_read(reads@, p as int, available as int),
            (reads@, *rng) == read_draws(counted, available as int, window as int, i as nat),
        decreases count - i,
    {
        let back: usize = draw_usize(rng, 0, window - 1);
        let id: u32 = (available - 1 - back) as u32;
        assert(!(params.producer(id as int) < p - params.max_lifetime));
        if !is_named(&reads, id) {
            let choice: usize = draw_usize(rng, 0, 4);
            let ghost so_far = reads@;
            reads.push(res_ref(id, read_choice(choice)));
            proof {
                assert(read_choices()[choice as int] == reads@.last().access.access_type);
                assert forall|a: int, b: int| #![trigger reads@[a], reads@[b]]
                    0 <= a < b < reads@.len() implies reads@[a].id != reads@[b].id by {
                    if b == so_far.len() {
                        assert(so_far[a].id != id);
                    } else {
                        assert(so_far[a].id != so_far[b].id);
                    }
                }
                assert forall|a: int| 0 <= a < reads@.len() implies params.recent(
                    p as int,
                    available as int,
                    (#[trigger] reads@[a]).id as int,
                ) && reads_it(reads@[a], reads@[a].id as int) by {
                    if a < so_far.len() {
                        assert(reads@[a] == so_far[a]);
                    }
                }
            }
        }
        i = i + 1;
    }
    reads
}

/// Where the `r`th of `n` resources lands when they are spread evenly over `count` passes.
fn spread(r: usize, count: usize, n: usize) -> (pass: usize)
    requires
        r < n,
        n * count <= usize::MAX,
    ensures
        pass == r * count / (n as int),
{
    proof {
        assert(r * count <= n * count) by (nonlinear_arith)
            requires
                r < n,
        ;
        assert(r * count >= 0) by (nonlinear_arith);
    }
    r * count / n
}

/// Is the producer of the `r`th of `n` resources too long past for pass `p` to touch it?
fn is_expired(params: &GenParams, p: usize, r: usize, count: usize, n: usize) -> (expired: bool)
    requires
        n == params.resource_count(),
        count == params.pass_count(),
        r < n,
        n * count <= usize::MAX,
        params.producer(r as int) <= p,
    ensures
        expired == (p - params.producer(r as int) > params.max_lifetime),
{
    p - spread(r, count, n) > params.max_lifetime
}

/// Draws what passes declare, one pass after the other.
fn roll_passes(rng: &mut StdRng, params: &GenParams) -> (passes: Vec<PassDecl>)
    requires
        params.fits(),
    ensures
        passes.len() == params.pass_count(),
        forall|p: int|
            0 <= p < passes.len() ==> params.may_declare(#[trigger] passes[p], p),
        (declared(passes@), *final(rng)) == params.passes_of(
            *old(rng),
            params.pass_count() as nat,
        ),
{
    let n: usize = if params.resources > 0 {
        params.resources
    } else {
        1
    };
    let count: usize = if params.passes > 0 {
        params.passes
    } else {
        1
    };
    let mut passes: Vec<PassDecl> = Vec::with_capacity(count);
    let mut available: usize = 0;
    // How many of them are too long past to be touched again.
    let mut expired: usize = 0;
    let mut p: usize = 0;
    let ghost started = *rng;
    proof {
        assert(declared(passes@) =~= Seq::<PassRefs>::empty());
        assert forall|r: int| 0 <= r < n implies 0 <= #[trigger] params.producer(r) by {
            params.lemma_producer_bounded(r);
        }
    }
    while p < count
        invariant
            params.fits(),
            n == params.resource_count(),
            count == params.pass_count(),
            p <= count,
            expired <= available,
            forall|r: int| 0 <= r < expired ==> #[trigger] params.producer(r) + params.max_lifetime < p,
            forall|r: int|
                0 <= r < params.resource_count() ==> 0 <= #[trigger] params.producer(r),
            passes.len() == p,
            params.made_before(p as int, available as int),
            forall|q: int| 0 <= q < p ==> params.may_declare(#[trigger] passes[q], q),
            (declared(passes@), *rng) == params.passes_of(started, p as nat),
        decreases count - p,
    {
        let ghost before = *rng;
        let ghost declared_before = declared(passes@);
        let mut reads: Vec<ResourceRef> = Vec::new();
        let mut writes: Vec<ResourceRef> = Vec::new();
        let mut again: usize = 0;
        while expired < available && is_expired(params, p, expired, count, n)
            invariant
                params.fits(),
                n == params.resource_count(),
                count == params.pass_count(),
                expired <= available,
                params.made_before(p as int, available as int),
                forall|r: int|
                    0 <= r < expired ==> #[trigger] params.producer(r) + params.max_lifetime < p,
            decreases available - expired,
        {
            expired = expired + 1;
        }
        let window: usize = available - expired;
        proof {
            assert(params.made_before(p - params.max_lifetime, expired as int)) by {
                assert forall|r: int|
                    0 <= r < params.resource_count() implies (r < expired
                    <==> #[trigger] params.producer(r) < p - params.max_lifetime) by {
                    if expired <= r {
                        params.lemma_producer_grows(expired as int, r);
                        if expired == available {
                            assert(!(params.producer(r) < p));
                        }
                    }
                }
            }
            params.lemma_made(p as int, available as int);
            params.lemma_made(p - params.max_lifetime, expired as int);
        }
        if window > 0 {
            reads = roll_reads(rng, params, p, available, window);
            if draw_u32(rng, 0, 99) < params.rewrite_percent {
                let back: usize = draw_usize(rng, 0, window - 1);
                let choice: usize = draw_usize(rng, 0, 3);
                assert(!(params.producer(available - 1 - back) < p - params.max_lifetime));
                writes.push(res_ref((available - 1 - back) as u32, write_choice(choice)));
                again = 1;
                proof {
                    assert(write_choices()[choice as int] == writes@[0].access.access_type);
                }
            }
        }
        let ghost rewritten = *rng;
        let ghost first = writes@;
        proof {
            assert(params.reads_of(before, p as int).0 == reads@);
            assert(params.again_of(params.reads_of(before, p as int).1, p as int) == (
                first,
                rewritten,
            ));
            assert(first + Seq::<ResourceRef>::empty() =~= first);
        }
        let mut made: usize = available;
        while made < n && spread(made, count, n) == p
            invariant
                params.fits(),
                n == params.resource_count(),
                count == params.pass_count(),
                p < count,
                available <= made <= n,
                params.made_before(p as int, available as int),
                forall|r: int| available <= r < made ==> #[trigger] params.producer(r) == p,
                again == 0 || again == 1,
                writes@.len() == again + (made - available),
                again == 1 ==> params.rewrite_percent > 0 && params.recent(
                    p as int,
                    available as int,
                    writes@[0].id as int,
                ) && writes_it(writes@[0], writes@[0].id as int),
                again == 0 ==> params.window(p as int) == 0 || params.rewrite_percent < 100,
                forall|i: int|
                    0 <= i < made - available ==> writes_it(
                        #[trigger] writes@[again + i],
                        available + i,
                    ),
                writes@ == first + made_draws(
                    rewritten,
                    available as int,
                    (made - available) as nat,
                ).0,
                *rng == made_draws(rewritten, available as int, (made - available) as nat).1,
            decreases n - made,
        {
            let choice: usize = draw_usize(rng, 0, 3);
            let ghost so_far = writes@;
            writes.push(res_ref(made as u32, write_choice(choice)));
            proof {
                assert(write_choices()[choice as int] == writes@.last().access.access_type);
                assert(params.producer(made as int) == p);
                assert forall|i: int| 0 <= i < made + 1 - available implies writes_it(
                    #[trigger] writes@[again + i],
                    available + i,
                ) by {
                    if i < made - available {
                        assert(writes@[again + i] == so_far[again + i]);
                    }
                }
                if again == 1 {
                    assert(writes@[0] == so_far[0]);
                }
                assert(writes@ =~= first + made_draws(
                    rewritten,
                    available as int,
                    (made + 1 - available) as nat,
                ).0);
            }
            made = made + 1;
        }
        proof {
            assert(params.made_before(p + 1, made as int)) by {
                assert forall|r: int|
                    0 <= r < params.resource_count() implies (r < made <==> #[trigger] params.producer(r)
                    < p + 1) by {
                    if r < available {
                        assert(params.producer(r) < p);
                    } else if r < made {
                        assert(params.producer(r) == p);
                    } else {
                        params.lemma_producer_grows(made as int, r);
                        assert(!(params.producer(made as int) < p));
                        assert(params.producer(made as int) != p);
                    }
                }
            }
            assert(params.may_write(writes@, p as int, available as int, made as int));
            assert(params.may_read(reads@, p as int, available as int));
        }
        let ghost pass: PassDecl = (reads, writes);
        passes.push((reads, writes));
        proof {
            params.lemma_made(p as int, available as int);
            params.lemma_made(p + 1, made as int);
            assert(params.pass_of(before, p as int) == ((reads@, writes@), *rng));
            assert(declared(passes@) =~= declared_before.push((reads@, writes@)));
            assert(params.may_declare(pass, p as int));
            assert forall|q: int| 0 <= q < p + 1 implies params.may_declare(
                #[trigger] passes[q],
                q,
            ) by {}
        }
        available = made;
        p = p + 1;
    }
    passes
}

// ---------------------------------------------------------------------------
// Fixtures
// ---------------------------------------------------------------------------

/// A generated graph, and all that is derived from it.
pub struct GraphFixture {
    pub virtual_resources: Vec<GraphResourceInfo>,
    pub declarations: Vec<PassDecl>,
    pub analysis: PassAnalysis,
    /// For every pass its place in the order.
    pub schedule_pos: Vec<usize>,
    pub alias_resources: Vec<AliasResource>,
    pub alias_components: Vec<Vec<u32>>,
}

/// Those of the first `n` resources that some pass touches, with their lifetimes.
pub open spec fn with_lifetimes(list: Seq<AliasResource>, usages: Usages, n: nat) -> Seq<
    AliasResource,
>
    decreases n,
{
    if n == 0 {
        Seq::empty()
    } else {
        let rest = with_lifetimes(list, usages, (n - 1) as nat);
        let r = list[n - 1];
        if usages.contains_key(r.id) {
            rest.push(
                AliasResource {
                    first_pass: usages[r.id].first_pass,
                    last_pass: usages[r.id].last_pass,
                    ..r
                },
            )
        } else {
            rest
        }
    }
}

impl GraphFixture {
    /// All that is derived comes from the declarations and from `resources`.
    pub open spec fn derives_from(self, resources: Seq<AliasResource>) -> bool {
        &&& analyzable(self.declarations@)
        &&& self.analysis.derives_from(self.declarations@)
        &&& self.schedule_pos@ == counting(self.declarations@.len())
        &&& self.alias_resources@ == with_lifetimes(
            resources,
            self.analysis.resource_usages@,
            resources.len(),
        )
        &&& self.alias_components@.len() == self.analysis.components@.len()
        &&& forall|c: int|
            0 <= c < self.alias_components@.len() ==> (#[trigger] self.alias_components@[c])@
                == self.analysis.components@[c].resources@
    }

    /// A fixture that belongs together.
    pub open spec fn consistent(self) -> bool {
        &&& self.virtual_resources.len() <= u32::MAX
        &&& exists|resources: Seq<AliasResource>| #[trigger] self.derives_from(resources)
    }

    pub fn pass_count(&self) -> (n: usize)
        ensures
            n == self.declarations@.len(),
    {
        self.declarations.len()
    }

    pub fn resource_count(&self) -> (n: usize)
        ensures
            n == self.alias_resources@.len(),
    {
        self.alias_resources.len()
    }

    /// What the aliasing planner takes.
    pub fn alias_input(&self) -> (input: (&Vec<AliasResource>, &Vec<Vec<u32>>))
        ensures
            *input.0 == self.alias_resources,
            *input.1 == self.alias_components,
    {
        (&self.alias_resources, &self.alias_components)
    }

    /// Runs the analysis again and counts the components.
    pub fn run_analyze(&self) -> (n: usize)
        requires
            self.consistent(),
        ensures
            exists|analysis: PassAnalysis| #[trigger]
                analysis.derives_from(self.declarations@) && n == analysis.components@.len(),
    {
        let analysis = analyze_passes(&self.declarations);
        analysis.components.len()
    }

    /// Orders the passes again and counts them: all of them.
    pub fn run_toposort(&self) -> (n: usize)
        requires
            self.consistent(),
        ensures
            n == self.declarations@.len(),
    {
        proof {
            law_schedule_is_declaration_order(
                self.declarations@,
                node_weights(self.analysis.dep_graph),
                Seq::empty(),
            );
        }
        match kahn_toposort(&self.analysis.dep_graph) {
            Ok(order) => {
                proof {
                    law_schedule_is_declaration_order(
                        self.declarations@,
                        node_weights(self.analysis.dep_graph),
                        order@,
                    );
                }
                order.len()
            },
            Err(_) => self.declarations.len(),
        }
    }

    /// Plans the barriers again for a placement and counts them.
    pub fn run_plan_barriers(&self, placements: &HashMap<u32, Placement>) -> (n: u64)
        requires
            self.consistent(),
            addressable(placements@),
            transition_count(
                frame_barriers(
                    self.virtual_resources@,
                    self.analysis.resource_usages@,
                    self.schedule_pos@,
                    placements@,
                ),
                self.declarations@.len(),
            ) <= u64::MAX,
        ensures
            n == transition_count(
                frame_barriers(
                    self.virtual_resources@,
                    self.analysis.resource_usages@,
                    self.schedule_pos@,
                    placements@,
                ),
                self.declarations@.len(),
            ),
    {
        let ghost n = self.declarations@.len();
        let ghost before = frame_barriers(
            self.virtual_resources@,
            self.analysis.resource_usages@,
            self.schedule_pos@,
            placements@,
        );
        proof {
            lemma_lifetimes_inside(self.declarations@, self.analysis.resource_usages@);
        }
        let (barriers, _) = plan_barriers(
            &self.virtual_resources,
            &self.analysis.resource_usages,
            &self.schedule_pos,
            placements,
        );
        let list = in_order(barriers, &self.schedule_pos, Ghost(before));
        proof {
            lemma_recorded_count(list@, before, n);
        }
        count_barriers(&list)
    }
}

/// How many barriers stand before the first `n` passes.
pub open spec fn transition_count(before: spec_fn(int) -> Seq<Transition>, n: nat) -> nat
    decreases n,
{
    if n == 0 {
        0
    } else {
        transition_count(before, (n - 1) as nat) + before(n - 1).len()
    }
}

/// The sum over views of recorded barriers.
spec fn view_count(list: Seq<(usize, Seq<Transition>)>, n: nat) -> nat
    decreases n,
{
    if n == 0 {
        0
    } else {
        view_count(list, (n - 1) as nat) + list[n - 1].1.len()
    }
}

proof fn lemma_view_count_prefix(
    a: Seq<(usize, Seq<Transition>)>,
    b: Seq<(usize, Seq<Transition>)>,
    n: nat,
)
    requires
        n <= a.len(),
        n <= b.len(),
        forall|i: int| 0 <= i < n ==> a[i] == b[i],
    ensures
        view_count(a, n) == view_count(b, n),
    decreases n,
{
    if n > 0 {
        lemma_view_count_prefix(a, b, (n - 1) as nat);
    }
}

proof fn lemma_views_counted(list: Seq<(usize, Vec<ResourceBarrier>)>, n: nat)
    requires
        n <= list.len(),
    ensures
        barrier_count(list, n) == view_count(recorded_views(list), n),
    decreases n,
{
    if n > 0 {
        lemma_views_counted(list, (n - 1) as nat);
    }
}

proof fn lemma_recorded_views_count(
    before: spec_fn(int) -> Seq<Transition>,
    order: Seq<usize>,
    n: nat,
)
    requires
        n <= order.len(),
        order == counting(order.len()),
        order.len() <= usize::MAX,
    ensures
        view_count(recorded(before, order, n), recorded(before, order, n).len())
            == transition_count(before, n),
    decreases n,
{
    if n > 0 {
        lemma_recorded_views_count(before, order, (n - 1) as nat);
        let rest = recorded(before, order, (n - 1) as nat);
        let all = recorded(before, order, n);
        assert(order[n - 1] == n - 1);
        lemma_view_count_prefix(rest, all, rest.len());
    }
}

proof fn lemma_recorded_count(
    list: Seq<(usize, Vec<ResourceBarrier>)>,
    before: spec_fn(int) -> Seq<Transition>,
    n: nat,
)
    requires
        recorded_views(list) == recorded(before, counting(n), n),
        n <= usize::MAX,
    ensures
        barrier_count(list, list.len()) == transition_count(before, n),
{
    lemma_views_counted(list, list.len());
    lemma_recorded_views_count(before, counting(n), n);
}

/// Derives a fixture from resources and what passes declare.
pub fn fixture_from(
    virtual_resources: Vec<GraphResourceInfo>,
    resources: &Vec<AliasResource>,
    declarations: Vec<PassDecl>,
) -> (fixture: GraphFixture)
    requires
        analyzable(declarations@),
    ensures
        fixture.virtual_resources == virtual_resources,
        fixture.declarations == declarations,
        fixture.derives_from(resources@),
{
    let analysis = analyze_passes(&declarations);
    let ghost weights = node_weights(analysis.dep_graph);
    proof {
        law_schedule_is_declaration_order(declarations@, weights, Seq::empty());
    }
    let mut schedule_pos: Vec<usize> = Vec::new();
    match kahn_toposort(&analysis.dep_graph) {
        Ok(order) => {
            proof {
                law_schedule_is_declaration_order(declarations@, weights, order@);
            }
            schedule_pos = schedule_positions(&order);
            proof {
                assert(schedule_pos@ =~= counting(declarations@.len())) by {
                    assert forall|k: int| 0 <= k < order@.len() implies schedule_pos@[k] == k by {
                        assert(order@[k] == k);
                    }
                }
            }
        },
        Err(_) => {},
    }
    let mut alias_resources: Vec<AliasResource> = Vec::new();
    let mut i: usize = 0;
    while i < resources.len()
        invariant
            i <= resources.len(),
            alias_resources@ == with_lifetimes(
                resources@,
                analysis.resource_usages@,
                i as nat,
            ),
        decreases resources.len() - i,
    {
        let r = resources[i];
        match analysis.resource_usages.get(&r.id) {
            Some(usage) => {
                alias_resources.push(
                    AliasResource {
                        id: r.id,
                        size: r.size,
                        alignment: r.alignment,
                        memory_type_bits: r.memory_type_bits,
                        location: r.location,
                        first_pass: usage.first_pass,
                        last_pass: usage.last_pass,
                    },
                );
            },
            None => {},
        }
        i = i + 1;
    }
    let mut alias_components: Vec<Vec<u32>> = Vec::new();
    let mut c: usize = 0;
    while c < analysis.components.len()
        invariant
            c <= analysis.components.len(),
            alias_components.len() == c,
            forall|k: int|
                0 <= k < c ==> (#[trigger] alias_components@[k])@
                    == analysis.components@[k].resources@,
        decreases analysis.components.len() - c,
    {
        alias_components.push(copy_ids(&analysis.components[c].resources));
        c = c + 1;
    }
    GraphFixture {
        virtual_resources,
        declarations,
        analysis,
        schedule_pos,
        alias_resources,
        alias_components,
    }
}

// ---------------------------------------------------------------------------
// Generation
// ---------------------------------------------------------------------------

/// Whether `rolls` are what was drawn for the resources.
pub open spec fn rolled(
    rolls: Seq<ResourceRoll>,
    infos: Seq<GraphResourceInfo>,
    resources: Seq<AliasResource>,
) -> bool {
    &&& infos.len() == rolls.len()
    &&& resources.len() == rolls.len()
    &&& forall|i: int|
        0 <= i < rolls.len() ==> (#[trigger] rolls[i]).in_range() && infos[i] == rolls[i].info()
            && resources[i] == rolls[i].alias(i as u32)
}

/// Whether a fixture is one that may be generated: resources from draws that lie in their
/// ranges, passes that declare what they may, and the rest derived from both.
pub open spec fn may_generate(params: GenParams, fixture: GraphFixture) -> bool {
    &&& fixture.declarations@.len() == params.pass_count()
    &&& forall|p: int|
        0 <= p < fixture.declarations@.len() ==> params.may_declare(
            #[trigger] fixture.declarations@[p],
            p,
        )
    &&& fixture.virtual_resources@.len() == params.resource_count()
    &&& exists|rolls: Seq<ResourceRoll>, resources: Seq<AliasResource>|
        {
            &&& #[trigger] rolled(rolls, fixture.virtual_resources@, resources)
            &&& fixture.derives_from(resources)
        }
}

/// The resources that were drawn, as the planner takes them.
pub open spec fn drawn_resources(rolls: Seq<ResourceRoll>) -> Seq<AliasResource> {
    Seq::new(rolls.len(), |i: int| rolls[i].alias(i as u32))
}

/// Whether a fixture is the one that a seed gives: its generator draws the resources,
/// then the passes, and the rest is derived from both.
pub open spec fn generates(seed: u64, params: GenParams, fixture: GraphFixture) -> bool {
    let (rolls, rng) = rolls_of(seeded_rng(seed), params.resource_count() as nat);
    &&& rolled(rolls, fixture.virtual_resources@, drawn_resources(rolls))
    &&& declared(fixture.declarations@) == params.passes_of(rng, params.pass_count() as nat).0
    &&& fixture.derives_from(drawn_resources(rolls))
}

impl GenParams {
    proof fn lemma_made(self, p: int, k: int)
        requires
            self.made_before(p, k),
        ensures
            self.made(p) == k,
    {
        self.lemma_made_before_unique(p, self.made(p), k);
    }

    proof fn lemma_made_before_unique(self, p: int, a: int, b: int)
        requires
            self.made_before(p, a),
            self.made_before(p, b),
        ensures
            a == b,
    {
        if a < b {
            assert(!(self.producer(a) < p));
        } else if b < a {
            assert(!(self.producer(b) < p));
        }
    }

    /// A pass touches only resources that live in it.
    proof fn lemma_pass_within(self, pass: PassDecl, p: int)
        requires
            self.may_declare(pass, p),
        ensures
            forall|i: int|
                0 <= i < pass.0@.len() ==> self.lives_in((#[trigger] pass.0@[i]).id, p),
            forall|i: int|
                0 <= i < pass.1@.len() ==> self.lives_in((#[trigger] pass.1@[i]).id, p),
    {
        let (available, made) = choose|available: int, made: int|
            {
                &&& #[trigger] self.made_before(p, available)
                &&& #[trigger] self.made_before(p + 1, made)
                &&& available <= made
                &&& self.may_read(pass.0@, p, available)
                &&& self.may_write(pass.1@, p, available, made)
            };
        let writes = pass.1@;
        let again = writes.len() - (made - available);
        assert forall|i: int| 0 <= i < pass.0@.len() implies self.lives_in(
            (#[trigger] pass.0@[i]).id,
            p,
        ) by {
            let id = pass.0@[i].id as int;
            assert(self.recent(p, available, id));
            assert(self.producer(id) < p);
        }
        assert forall|i: int| 0 <= i < writes.len() implies self.lives_in(
            (#[trigger] writes[i]).id,
            p,
        ) by {
            let id = writes[i].id as int;
            if i >= again {
                assert(writes_it(writes[again + (i - again)], available + (i - again)));
                assert(!(self.producer(id) < p));
                assert(self.producer(id) < p + 1);
            } else {
                assert(self.recent(p, available, id));
                assert(self.producer(id) < p);
            }
        }
    }

    /// Every touch is of a resource that lives in its pass.
    proof fn lemma_touches_within(self, passes: Seq<PassDecl>, n: nat)
        requires
            n <= passes.len() <= usize::MAX,
            forall|q: int| 0 <= q < passes.len() ==> self.may_declare(#[trigger] passes[q], q),
        ensures
            forall|i: int|
                0 <= i < touches(passes, n).len() ==> self.lives_in(
                    (#[trigger] touches(passes, n)[i]).id,
                    touches(passes, n)[i].pass as int,
                ),
        decreases n,
    {
        if n > 0 {
            self.lemma_touches_within(passes, (n - 1) as nat);
            self.lemma_pass_within(passes[n - 1], n - 1);
            let rest = touches(passes, (n - 1) as nat);
            let reads = passes[n - 1].0@;
            let t = touches(passes, n);
            assert forall|i: int| 0 <= i < t.len() implies self.lives_in(
                (#[trigger] t[i]).id,
                t[i].pass as int,
            ) by {
                if i < rest.len() {
                    assert(t[i] == rest[i]);
                } else if i < rest.len() + reads.len() {
                    assert(t[i].id == reads[i - rest.len()].id);
                } else {
                    assert(t[i].id == passes[n - 1].1@[i - rest.len() - reads.len()].id);
                }
            }
        }
    }

    /// Every resource is written by its producer.
    proof fn lemma_producer_touches(self, passes: Seq<PassDecl>, n: nat, id: u32) -> (i: int)
        requires
            n <= passes.len() <= usize::MAX,
            forall|q: int| 0 <= q < passes.len() ==> self.may_declare(#[trigger] passes[q], q),
            id < self.resource_count(),
            0 <= self.producer(id as int) < n,
        ensures
            0 <= i < touches(passes, n).len(),
            touches(passes, n)[i].id == id,
            touches(passes, n)[i].pass == self.producer(id as int),
        decreases n,
    {
        let p = n - 1;
        let rest = touches(passes, p as nat);
        let t = touches(passes, n);
        if self.producer(id as int) < p {
            let i = self.lemma_producer_touches(passes, p as nat, id);
            assert(t[i] == rest[i]);
            i
        } else {
            let pass = passes[p];
            assert(self.may_declare(pass, p));
            let (available, made) = choose|available: int, made: int|
                {
                    &&& #[trigger] self.made_before(p, available)
                    &&& #[trigger] self.made_before(p + 1, made)
                    &&& available <= made
                    &&& self.may_read(pass.0@, p, available)
                    &&& self.may_write(pass.1@, p, available, made)
                };
            let again = pass.1@.len() - (made - available);
            let k = again + (id - available);
            assert(available <= id < made);
            assert(writes_it(pass.1@[again + (id - available)], available + (id - available)));
            let i = rest.len() + pass.0@.len() + k;
            assert(t[i].id == pass.1@[k].id);
            i
        }
    }

    /// Resources live from their producers on, and no longer than they may.
    proof fn lemma_lifetimes_bounded(
        self,
        passes: Seq<PassDecl>,
        usages: Usages,
        list: Seq<AliasResource>,
        n: nat,
    )
        requires
            n <= list.len(),
            passes.len() == self.pass_count(),
            passes.len() <= usize::MAX,
            forall|q: int| 0 <= q < passes.len() ==> self.may_declare(#[trigger] passes[q], q),
            usages_match(usages, touches(passes, passes.len())),
            forall|i: int| 0 <= i < list.len() ==> (#[trigger] list[i]).id < self.resource_count(),
        ensures
            forall|i: int|
                0 <= i < with_lifetimes(list, usages, n).len() ==> self.lives_as_long(
                    #[trigger] with_lifetimes(list, usages, n)[i],
                ),
        decreases n,
    {
        if n > 0 {
            self.lemma_lifetimes_bounded(passes, usages, list, (n - 1) as nat);
            let rest = with_lifetimes(list, usages, (n - 1) as nat);
            let all = with_lifetimes(list, usages, n);
            let id = list[n - 1].id;
            if usages.contains_key(id) {
                let t = touches(passes, passes.len());
                let u = usages_of(t, id);
                assert(usage_matches(usages[id], t, id));
                let at = lemma_places(t, id);
                self.lemma_touches_within(passes, passes.len());
                self.lemma_producer_bounded(id as int);
                lemma_touches_in_order(passes, passes.len());
                let i = self.lemma_producer_touches(passes, passes.len(), id);
                assert(at.contains(i));
                let k = choose|k: int| 0 <= k < at.len() && at[k] == i;
                assert(at[0] <= at[k]);
                assert(t[at[0]].pass <= t[at[k]].pass);
                assert(u[0].0 == t[at[0]].pass);
                assert(u.last().0 == t[at[u.len() - 1]].pass);
                assert(self.lives_in(t[at[0]].id, t[at[0]].pass as int));
                assert(self.lives_in(
                    t[at[u.len() - 1]].id,
                    t[at[u.len() - 1]].pass as int,
                ));
            }
            assert forall|i: int| 0 <= i < all.len() implies self.lives_as_long(
                #[trigger] all[i],
            ) by {
                if i < rest.len() {
                    assert(all[i] == rest[i]);
                }
            }
        }
    }

    /// Generated passes declare few accesses.
    proof fn lemma_few_touches(self, passes: Seq<PassDecl>, p: nat, k: int)
        requires
            p <= passes.len(),
            forall|q: int| 0 <= q < passes.len() ==> self.may_declare(#[trigger] passes[q], q),
            self.made_before(p as int, k),
        ensures
            touches(passes, p).len() <= p * (self.reads_per_pass + 1) + k,
        decreases p,
    {
        if p > 0 {
            assert(self.may_declare(passes[p - 1], p - 1));
            let (available, made) = choose|available: int, made: int|
                {
                    &&& #[trigger] self.made_before(p - 1, available)
                    &&& #[trigger] self.made_before(p - 1 + 1, made)
                    &&& available <= made
                    &&& self.may_read(passes[p - 1].0@, p - 1, available)
                    &&& self.may_write(passes[p - 1].1@, p - 1, available, made)
                };
            self.lemma_made_before_unique(p as int, k, made);
            self.lemma_few_touches(passes, (p - 1) as nat, available);
            assert((p - 1) * (self.reads_per_pass + 1) + (self.reads_per_pass + 1) == p * (
            self.reads_per_pass + 1)) by (nonlinear_arith);
        }
    }
}

/// Builds a random graph and derives the rest from it. The seed and the parameters alone
/// decide which.
pub fn gen_graph(seed: u64, params: &GenParams) -> (fixture: GraphFixture)
    requires
        params.fits(),
    ensures
        generates(seed, *params, fixture),
        may_generate(*params, fixture),
        fixture.consistent(),
        forall|i: int|
            0 <= i < fixture.alias_resources@.len() ==> params.lives_as_long(
                #[trigger] fixture.alias_resources@[i],
            ),
        forall|i: int|
            0 <= i < fixture.alias_resources@.len() ==> (
            #[trigger] fixture.alias_resources@[i]).last_pass
                - fixture.alias_resources@[i].first_pass <= params.max_lifetime,
{
    let mut rng = seeded(seed);
    let n: usize = if params.resources > 0 {
        params.resources
    } else {
        1
    };
    let mut virtual_resources: Vec<GraphResourceInfo> = Vec::with_capacity(n);
    let mut resources: Vec<AliasResource> = Vec::with_capacity(n);
    let ghost mut rolls: Seq<ResourceRoll> = Seq::empty();
    let mut i: usize = 0;
    while i < n
        invariant
            i <= n <= u32::MAX,
            rolls.len() == i,
            (rolls, rng) == rolls_of(seeded_rng(seed), i as nat),
            rolled(rolls, virtual_resources@, resources@),
        decreases n - i,
    {
        let roll = roll_resource(&mut rng);
        let (info, resource) = resource_from(&roll, i as u32);
        virtual_resources.push(info);
        resources.push(resource);
        proof {
            rolls = rolls.push(roll);
        }
        i = i + 1;
    }
    let declarations = roll_passes(&mut rng, params);
    proof {
        let passes = params.pass_count();
        assert(params.made_before(passes, n as int)) by {
            assert forall|r: int| 0 <= r < n implies (r < n <==> #[trigger] params.producer(r)
                < passes) by {
                params.lemma_producer_bounded(r);
            }
        }
        params.lemma_few_touches(declarations@, declarations@.len(), n as int);
        law_edges_are_few(touches(declarations@, declarations@.len()));
    }
    let fixture = fixture_from(virtual_resources, &resources, declarations);
    proof {
        assert(rolled(rolls, fixture.virtual_resources@, resources@));
        assert(resources@ =~= drawn_resources(rolls));
        assert forall|i: int| 0 <= i < resources@.len() implies (#[trigger] resources@[i]).id
            < params.resource_count() by {
            assert(rolls[i].in_range());
        }
        params.lemma_lifetimes_bounded(
            fixture.declarations@,
            fixture.analysis.resource_usages@,
            resources@,
            resources@.len(),
        );
    }
    fixture
}

/// What the aliasing planner takes, of a random graph.
pub fn gen_resources(seed: u64, params: &GenParams) -> (input: (Vec<AliasResource>, Vec<Vec<u32>>))
    requires
        params.fits(),
    ensures
        exists|fixture: GraphFixture| #[trigger]
            generates(seed, *params, fixture) && may_generate(*params, fixture) && input.0
                == fixture.alias_resources && input.1 == fixture.alias_components,
        forall|i: int|
            0 <= i < input.0@.len() ==> params.lives_as_long(#[trigger] input.0@[i]),
{
    let fixture = gen_graph(seed, params);
    (fixture.alias_resources, fixture.alias_components)
}

} // verus!
