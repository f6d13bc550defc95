//! Barriers between the accesses of a frame.
use std::collections::{BTreeMap, HashMap, HashSet};

use rand::rngs::StdRng;
use rand::{RngExt, SeedableRng};
use vk_sync_fork::AccessType;

use sunray::render_graph::access::{
    image_layout_of, PassResourceAccessSyncType, PassResourceAccessType,
};
use sunray::render_graph::alias::{plan, AliasStrategy, MemoryLocation, Placement};
use sunray::render_graph::analysis::ResourceLifetimeUsage;
use sunray::render_graph::barriers::plan_barriers;
use sunray::render_graph::bench_support::{gen_graph, GenParams};
use sunray::render_graph::interval_set::{cover_range, range_covered};
use sunray::render_graph::predecessors::alias_predecessors;
use sunray::render_graph::resource::{
    BoundBuffer, BufferDesc, GraphResourceDesc, GraphResourceImportInfo, GraphResourceInfo,
    ImageDesc,
};

fn image(size: u32, name: &'static str) -> GraphResourceInfo {
    GraphResourceInfo::Created(GraphResourceDesc::Image(ImageDesc {
        extent: (size, size, 1),
        format: 37,
        tiling: 0,
        location: MemoryLocation::GpuOnly,
        usage: 0x8 | 0x1,
        name,
    }))
}

fn buffer(bytes: u64, name: &'static str) -> GraphResourceInfo {
    GraphResourceInfo::Created(GraphResourceDesc::Buffer(BufferDesc {
        byte_size: bytes,
        alignment: 16,
        memory_location: MemoryLocation::GpuOnly,
        usage: 0x20 | 0x1,
        name,
    }))
}

/// Build a `ResourceLifetimeUsage` from `(pass, access)` pairs.
fn usages(list: &[(usize, AccessType)]) -> ResourceLifetimeUsage {
    ResourceLifetimeUsage {
        first_pass: list.first().map_or(0, |(p, _)| *p),
        last_pass: list.last().map_or(0, |(p, _)| *p),
        usages: list
            .iter()
            .map(|(p, a)| {
                (
                    *p,
                    PassResourceAccessType {
                        access_type: *a,
                        sync_type: PassResourceAccessSyncType::AlwaysSync,
                    },
                )
            })
            .collect(),
    }
}

/// Identity schedule: pass id == schedule position.
fn identity_schedule(n: usize) -> Vec<usize> {
    (0..n).collect()
}

fn placed(bucket: u32, offset: u64, size: u64) -> Placement {
    Placement { bucket, offset, size }
}

#[test]
fn epoch_walk_merges_a_reader_run() {
    let resources = vec![buffer(1024, "buf")];
    let mut u = BTreeMap::new();
    u.insert(
        0,
        usages(&[
            (1, AccessType::ComputeShaderWrite),
            (2, AccessType::ComputeShaderReadOther),
            (3, AccessType::RayTracingShaderReadOther),
            (4, AccessType::AnyShaderReadOther),
            (5, AccessType::ComputeShaderWrite),
        ]),
    );

    let (barriers, ends) = plan_barriers(&resources, &u, &identity_schedule(6), &HashMap::new());

    let total: usize = barriers.values().map(|v| v.len()).sum();
    assert_eq!(total, 2, "W,R,R,R,W must produce 2 barriers, got {barriers:#?}");

    let raw = &barriers[&2][0];
    assert_eq!(raw.prev, vec![AccessType::ComputeShaderWrite]);
    assert_eq!(
        raw.next,
        vec![
            AccessType::ComputeShaderReadOther,
            AccessType::RayTracingShaderReadOther,
            AccessType::AnyShaderReadOther
        ],
        "RAW dst must cover the whole read run"
    );

    let war = &barriers[&5][0];
    assert_eq!(war.prev.len(), 3, "WAR src must cover all 3 readers, not just the last");
    assert_eq!(war.next, vec![AccessType::ComputeShaderWrite]);

    assert_eq!(ends[&0].last_use_pass, Some(5));
}

#[test]
fn war_survives_a_read_run_ending_at_the_writing_pass() {
    let resources = vec![buffer(1024, "buf")];
    let mut u = BTreeMap::new();
    u.insert(
        0,
        usages(&[
            (1, AccessType::ComputeShaderWrite),
            (2, AccessType::ComputeShaderReadOther),
            (3, AccessType::ComputeShaderReadOther),
            (3, AccessType::ComputeShaderWrite),
        ]),
    );

    let (barriers, _) = plan_barriers(&resources, &u, &identity_schedule(4), &HashMap::new());

    let war = barriers
        .get(&3)
        .and_then(|b| b.iter().find(|b| b.next == vec![AccessType::ComputeShaderWrite]))
        .expect("pass 2's read must be ordered against pass 3's write");
    assert_eq!(war.prev, vec![AccessType::ComputeShaderReadOther]);
}

#[test]
fn self_contained_read_then_write_stays_barrier_free() {
    let resources = vec![buffer(1024, "buf")];
    let mut u = BTreeMap::new();
    u.insert(
        0,
        usages(&[
            (1, AccessType::ComputeShaderWrite),
            (3, AccessType::ComputeShaderReadOther),
            (3, AccessType::ComputeShaderWrite),
        ]),
    );

    let (barriers, _) = plan_barriers(&resources, &u, &identity_schedule(4), &HashMap::new());

    let total: usize = barriers.values().map(|v| v.len()).sum();
    assert_eq!(total, 1, "only the RAW into pass 3's read belongs here, got {barriers:#?}");
    assert_eq!(barriers[&3][0].next, vec![AccessType::ComputeShaderReadOther]);
}

#[test]
fn read_run_splits_on_layout_change() {
    let resources = vec![image(64, "img")];
    let mut u = BTreeMap::new();
    u.insert(
        0,
        usages(&[
            (1, AccessType::ComputeShaderWrite),
            (2, AccessType::ComputeShaderReadOther),
            (3, AccessType::ComputeShaderReadSampledImageOrUniformTexelBuffer),
        ]),
    );

    let (barriers, _) = plan_barriers(&resources, &u, &identity_schedule(4), &HashMap::new());

    let total: usize = barriers.values().map(|v| v.len()).sum();
    assert_eq!(total, 3, "layout-incompatible reads must not share an epoch: {barriers:#?}");
    assert_eq!(barriers[&3][0].prev, vec![AccessType::ComputeShaderReadOther]);
    assert_eq!(
        barriers[&3][0].next,
        vec![AccessType::ComputeShaderReadSampledImageOrUniformTexelBuffer]
    );
}

#[test]
fn created_image_is_seeded_with_a_discard() {
    let resources = vec![image(64, "img")];
    let mut u = BTreeMap::new();
    u.insert(0, usages(&[(3, AccessType::ComputeShaderWrite)]));

    let (barriers, _) = plan_barriers(&resources, &u, &identity_schedule(4), &HashMap::new());

    assert_eq!(barriers.len(), 1);
    let b = &barriers[&3][0];
    assert!(b.discard, "freshly bound transient memory must discard");
    assert_eq!(b.prev, vec![AccessType::Nothing]);
}

#[test]
fn transitions_on_the_same_pass_share_a_barrier_point() {
    let resources = vec![buffer(1024, "a"), buffer(2048, "b")];
    let mut u = BTreeMap::new();
    u.insert(
        0,
        usages(&[(1, AccessType::ComputeShaderWrite), (5, AccessType::ComputeShaderReadOther)]),
    );
    u.insert(
        1,
        usages(&[(2, AccessType::ComputeShaderWrite), (5, AccessType::ComputeShaderReadOther)]),
    );

    let (barriers, _) = plan_barriers(&resources, &u, &identity_schedule(6), &HashMap::new());

    assert_eq!(barriers.len(), 1, "both transitions belong at pass 5");
    assert_eq!(barriers[&5].len(), 2, "one per resource, merged at emission");
}

#[test]
fn end_state_exports_the_whole_final_read_run() {
    let resources = vec![buffer(512, "buf")];
    let mut u = BTreeMap::new();
    u.insert(
        0,
        usages(&[
            (1, AccessType::ComputeShaderWrite),
            (2, AccessType::ComputeShaderReadOther),
            (3, AccessType::RayTracingShaderReadOther),
            (4, AccessType::AnyShaderReadOther),
        ]),
    );

    let (_, ends) = plan_barriers(&resources, &u, &identity_schedule(5), &HashMap::new());
    let end = &ends[&0];

    assert_eq!(end.end_accesses.len(), 3, "all three trailing readers must be exported");
    assert!(end.end_accesses.contains(&AccessType::ComputeShaderReadOther));
    assert!(end.end_accesses.contains(&AccessType::RayTracingShaderReadOther));
    assert!(end.end_accesses.contains(&AccessType::AnyShaderReadOther));
    assert_eq!(end.last_write, Some(AccessType::ComputeShaderWrite));
    assert_eq!(end.last_use_pass, Some(4));
}

#[test]
fn aliased_slot_reuse_is_ordered_against_the_previous_occupant() {
    let resources = vec![image(64, "first"), image(64, "second")];
    let mut u = BTreeMap::new();
    u.insert(
        0,
        usages(&[(0, AccessType::ComputeShaderWrite), (1, AccessType::ComputeShaderReadOther)]),
    );
    u.insert(1, usages(&[(2, AccessType::ComputeShaderWrite)]));

    let mut slots = HashMap::new();
    slots.insert(0u32, placed(0, 0, 4096));
    slots.insert(1u32, placed(0, 0, 4096));

    let (barriers, _) = plan_barriers(&resources, &u, &identity_schedule(4), &slots);

    let seed = barriers[&2]
        .iter()
        .find(|b| b.resource_id == 1)
        .expect("second occupant must get a barrier before its first use");
    assert_eq!(
        seed.prev,
        vec![AccessType::ComputeShaderReadOther],
        "the alias barrier must be sourced from the previous occupant's final access, not from Nothing"
    );
    assert!(seed.discard, "aliased memory carries no meaningful old layout");

    let (plain, _) = plan_barriers(&resources, &u, &identity_schedule(4), &HashMap::new());
    let unaliased = plain[&2].iter().find(|b| b.resource_id == 1).expect("still needs a seed");
    assert_eq!(unaliased.prev, vec![AccessType::Nothing]);
}

#[test]
fn same_bucket_disjoint_bytes_needs_no_alias_barrier() {
    let resources = vec![image(64, "low"), image(64, "high")];
    let mut u = BTreeMap::new();
    u.insert(
        0,
        usages(&[(0, AccessType::ComputeShaderWrite), (1, AccessType::ComputeShaderReadOther)]),
    );
    u.insert(1, usages(&[(2, AccessType::ComputeShaderWrite)]));

    let mut slots = HashMap::new();
    slots.insert(0u32, placed(0, 0, 1024));
    slots.insert(1u32, placed(0, 1024, 1024));

    let (barriers, _) = plan_barriers(&resources, &u, &identity_schedule(4), &slots);
    let seed = barriers[&2].iter().find(|b| b.resource_id == 1).expect("still needs a seed");
    assert_eq!(
        seed.prev,
        vec![AccessType::Nothing],
        "res 1 owns bytes res 0 never touched, so it seeds fresh, not from res 0"
    );
}

#[test]
fn a_resource_covering_two_predecessors_waits_for_both() {
    let resources = vec![image(64, "low"), image(64, "high"), image(64, "covering")];
    let mut u = BTreeMap::new();
    u.insert(0, usages(&[(0, AccessType::ComputeShaderWrite), (1, AccessType::TransferRead)]));
    u.insert(
        1,
        usages(&[(0, AccessType::ComputeShaderWrite), (1, AccessType::ComputeShaderReadOther)]),
    );
    u.insert(2, usages(&[(2, AccessType::ComputeShaderWrite)]));

    let mut slots = HashMap::new();
    slots.insert(0u32, placed(0, 0, 1024));
    slots.insert(1u32, placed(0, 1024, 1024));
    slots.insert(2u32, placed(0, 0, 2048));

    let (barriers, _) = plan_barriers(&resources, &u, &identity_schedule(4), &slots);
    let seed = barriers[&2]
        .iter()
        .find(|b| b.resource_id == 2)
        .expect("covering resource needs a seed");
    assert!(
        seed.prev.contains(&AccessType::TransferRead)
            && seed.prev.contains(&AccessType::ComputeShaderReadOther),
        "must wait on both occupants it overwrites, got {:?}",
        seed.prev
    );
    assert!(seed.discard);
}

#[test]
fn interval_set_matches_a_naive_byte_model() {
    const N: u64 = 24;
    for seed in 0..64u64 {
        let mut rng = StdRng::seed_from_u64(seed);
        let mut covered: Vec<(u64, u64)> = Vec::new();
        let mut model = [false; N as usize];

        for _ in 0..12 {
            let start = rng.random_range(0..N);
            let end = rng.random_range(start + 1..=N);
            cover_range(&mut covered, start, end);
            for b in &mut model[start as usize..end as usize] {
                *b = true;
            }

            for w in covered.windows(2) {
                assert!(w[0].1 < w[1].0, "seed {seed}: entries {:?} not merged/sorted", covered);
            }
            assert!(covered.iter().all(|(s, e)| s < e), "seed {seed}: empty entry in {covered:?}");

            for (byte, want) in model.iter().enumerate() {
                let got = covered.iter().any(|(s, e)| *s <= byte as u64 && (byte as u64) < *e);
                assert_eq!(got, *want, "seed {seed}: byte {byte} in {covered:?} vs model");
            }

            for a in 0..N {
                for b in a + 1..=N {
                    let want = model[a as usize..b as usize].iter().all(|c| *c);
                    assert_eq!(
                        range_covered(&covered, a, b),
                        want,
                        "seed {seed}: range_covered({a},{b}) on {covered:?}"
                    );
                }
            }
        }
    }
}

#[test]
fn random_graphs_order_every_byte_reuse() {
    let params = GenParams::default();
    for seed in 0..16u64 {
        let fixture = gen_graph(seed, &params);
        let (res, components) = fixture.alias_input();

        for strategy in [AliasStrategy::Slot, AliasStrategy::Bucket] {
            let (placements, _) = plan(strategy, res, components, 64);
            let usages = &fixture.analysis.resource_usages;
            let predecessors = alias_predecessors(&placements, usages);
            let (barriers, _) = plan_barriers(
                &fixture.virtual_resources,
                usages,
                &fixture.schedule_pos,
                &placements,
            );

            for res_id in predecessors.keys() {
                let seed_barrier = barriers
                    .values()
                    .flatten()
                    .find(|b| b.resource_id == *res_id && b.discard)
                    .unwrap_or_else(|| {
                        panic!("seed {seed} {strategy:?}: res {res_id} aliases with no discard barrier")
                    });
                assert!(
                    !seed_barrier.prev.is_empty()
                        && !seed_barrier.prev.contains(&AccessType::Nothing),
                    "seed {seed} {strategy:?}: res {res_id} enters aliased memory on {:?}",
                    seed_barrier.prev
                );
            }

            for a in res {
                for b in res {
                    if a.id == b.id
                        || b.last_pass >= a.first_pass
                        || !placements[&a.id].overlaps(&placements[&b.id])
                    {
                        continue;
                    }
                    assert!(
                        waits_on(&predecessors, a.id, b.id),
                        "seed {seed} {strategy:?}: res {} reuses res {}'s bytes but is never ordered after it",
                        a.id,
                        b.id
                    );
                }
            }
        }
    }
}

/// Is `target` reachable from `from` in the alias-predecessor graph? Edges point
/// backwards in time, so this terminates.
fn waits_on(predecessors: &HashMap<u32, Vec<u32>>, from: u32, target: u32) -> bool {
    let mut stack = vec![from];
    let mut seen: HashSet<u32> = HashSet::new();
    while let Some(node) = stack.pop() {
        for prev in predecessors.get(&node).into_iter().flatten() {
            if *prev == target {
                return true;
            }
            if seen.insert(*prev) {
                stack.push(*prev);
            }
        }
    }
    false
}

#[test]
fn layout_query_drives_the_fold() {
    assert_eq!(
        image_layout_of(AccessType::General),
        image_layout_of(AccessType::ComputeShaderReadOther),
        "General->ComputeShaderReadOther changes no layout, so it must fold"
    );
    assert_ne!(
        image_layout_of(AccessType::General),
        image_layout_of(AccessType::ComputeShaderReadSampledImageOrUniformTexelBuffer),
        "a sampled read needs a real image barrier"
    );
}

#[test]
fn predecessors_that_a_later_one_covers_are_dropped() {
    let mut u = BTreeMap::new();
    u.insert(0, usages(&[(0, AccessType::ComputeShaderWrite)]));
    u.insert(1, usages(&[(1, AccessType::ComputeShaderWrite)]));
    u.insert(2, usages(&[(2, AccessType::ComputeShaderWrite)]));
    let mut slots = HashMap::new();
    for id in 0..3u32 {
        slots.insert(id, placed(0, 0, 64));
    }
    let predecessors = alias_predecessors(&slots, &u);
    assert_eq!(predecessors[&1], vec![0]);
    assert_eq!(predecessors[&2], vec![1], "resource 1 already waited for resource 0");
    assert!(!predecessors.contains_key(&0));
}

#[test]
fn a_resource_that_no_pass_touches_ends_as_it_came() {
    let resources = vec![
        buffer(16, "unused"),
        GraphResourceInfo::Imported(GraphResourceImportInfo::Buffer {
            resource: BoundBuffer { token: 9, byte_size: 16 },
            access_types: vec![AccessType::TransferWrite],
        }),
    ];
    let (barriers, ends) =
        plan_barriers(&resources, &BTreeMap::new(), &identity_schedule(1), &HashMap::new());
    assert!(barriers.is_empty());
    assert_eq!(ends[&0].last_use_pass, None);
    assert!(ends[&0].end_accesses.is_empty());
    assert!(ends[&0].internal);
    assert!(!ends[&1].internal);
    assert_eq!(ends[&1].last_write, None);
}
