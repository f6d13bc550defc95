//! Placing resources in memory.
use std::collections::HashMap;

use sunray::render_graph::alias::{
    live_bytes_lower_bound, plan, total_bytes, AliasResource, AliasStrategy, BucketReqs,
    MemoryLocation, Placement,
};
use sunray::render_graph::bench_support::{gen_resources, GenParams};

const GPU: MemoryLocation = MemoryLocation::GpuOnly;

fn res(id: u32, size: u64, first: usize, last: usize) -> AliasResource {
    AliasResource {
        id,
        size,
        alignment: 256,
        memory_type_bits: 0b111,
        location: GPU,
        first_pass: first,
        last_pass: last,
    }
}

fn one_component(resources: &[AliasResource]) -> Vec<Vec<u32>> {
    vec![resources.iter().map(|r| r.id).collect()]
}

fn lifetimes_overlap(a: &AliasResource, b: &AliasResource) -> bool {
    a.first_pass <= b.last_pass && b.first_pass <= a.last_pass
}

/// Every property the placement must hold for the memory to actually be safe and for
/// the allocator not to reject it.
fn check_invariants(
    resources: &[AliasResource],
    placements: &HashMap<u32, Placement>,
    buckets: &[BucketReqs],
    granularity: u64,
    what: &str,
) {
    let granularity = granularity.max(1);
    assert_eq!(placements.len(), resources.len(), "{what}: every resource must be placed");

    for r in resources {
        let p = placements.get(&r.id).unwrap_or_else(|| panic!("{what}: res {} unplaced", r.id));
        let b = &buckets[p.bucket as usize];

        assert_eq!(p.size, r.size, "{what}: res {} placement size", r.id);
        assert!(
            p.offset + p.size <= b.size,
            "{what}: res {} runs past the end of bucket {} ({}+{} > {})",
            r.id,
            p.bucket,
            p.offset,
            p.size,
            b.size
        );
        let align = r.alignment.max(granularity);
        assert_eq!(p.offset % align, 0, "{what}: res {} offset {} not {align}-aligned", r.id, p.offset);
        assert!(b.alignment >= r.alignment, "{what}: bucket {} under-aligned for res {}", p.bucket, r.id);
        assert_eq!(b.location, r.location, "{what}: bucket {} heap mismatch", p.bucket);
        assert_ne!(
            b.memory_type_bits & r.memory_type_bits,
            0,
            "{what}: res {} cannot live in bucket {}",
            r.id,
            p.bucket
        );
    }

    for (i, a) in resources.iter().enumerate() {
        for b in &resources[i + 1..] {
            if !lifetimes_overlap(a, b) {
                continue;
            }
            let (pa, pb) = (placements[&a.id], placements[&b.id]);
            assert!(!pa.overlaps(&pb), "{what}: res {} aliases live res {}", a.id, b.id);
        }
    }

    for (i, b) in buckets.iter().enumerate() {
        assert_ne!(b.memory_type_bits, 0, "{what}: bucket {i} has no usable memory type");
        assert!(b.alignment.is_power_of_two(), "{what}: bucket {i} alignment {}", b.alignment);
        assert!(placements.values().any(|p| p.bucket == i as u32), "{what}: bucket {i} is empty");
    }

    assert!(
        total_bytes(&buckets.to_vec()) >= live_bytes_lower_bound(&resources.to_vec()),
        "{what}: total below the concurrently-live lower bound"
    );
}

#[test]
fn disjoint_lifetimes_share_one_bucket_side_by_side() {
    let r = vec![res(0, 4096, 0, 1), res(1, 1024, 2, 5), res(2, 1024, 2, 5)];
    let c = one_component(&r);

    let (p, b) = plan(AliasStrategy::Bucket, &r, &c, 1);
    check_invariants(&r, &p, &b, 1, "bucket");
    assert_eq!(b.len(), 1, "all three fit in the 4096 bucket");
    assert_eq!(b[0].size, 4096);
    assert!(!p[&1].overlaps(&p[&2]), "the two live-at-once smalls must not share bytes");

    let (p, b) = plan(AliasStrategy::Slot, &r, &c, 1);
    check_invariants(&r, &p, &b, 1, "slot");
    assert_eq!(b.len(), 2, "slot cannot co-locate res 1 and res 2");
    assert!(total_bytes(&b) > 4096);
}

#[test]
fn a_resource_that_fits_nowhere_opens_a_new_bucket() {
    let r = vec![res(0, 4096, 0, 3), res(1, 4096, 1, 4)];
    let (p, b) = plan(AliasStrategy::Bucket, &r, &one_component(&r), 1);
    check_invariants(&r, &p, &b, 1, "bucket");
    assert_eq!(b.len(), 2);
}

#[test]
fn incompatible_memory_types_are_never_folded_together() {
    let mut a = res(0, 4096, 0, 1);
    a.memory_type_bits = 0b0011;
    let mut b = res(1, 1024, 2, 3);
    b.memory_type_bits = 0b1100;
    let r = vec![a, b];

    for strategy in [AliasStrategy::Slot, AliasStrategy::Bucket] {
        let (p, buckets) = plan(strategy, &r, &one_component(&r), 1);
        check_invariants(&r, &p, &buckets, 1, "incompat");
        assert_eq!(buckets.len(), 2, "{strategy:?}: disjoint memory types cannot share");
    }
}

#[test]
fn components_never_alias_across_each_other() {
    let r = vec![res(0, 4096, 0, 1), res(1, 1024, 5, 6)];
    let c = vec![vec![0], vec![1]];
    for strategy in [AliasStrategy::Slot, AliasStrategy::Bucket] {
        let (p, buckets) = plan(strategy, &r, &c, 1);
        check_invariants(&r, &p, &buckets, 1, "components");
        assert_eq!(buckets.len(), 2, "{strategy:?}");
        assert_ne!(p[&0].bucket, p[&1].bucket);
    }
}

#[test]
fn granularity_pads_placements_apart() {
    let r = vec![res(0, 4096, 0, 1), res(1, 100, 2, 5), res(2, 100, 2, 5)];
    let (p, b) = plan(AliasStrategy::Bucket, &r, &one_component(&r), 1024);
    check_invariants(&r, &p, &b, 1024, "granularity");
    assert!(p[&1].offset.abs_diff(p[&2].offset) >= 1024);
}

#[test]
fn placement_is_deterministic() {
    let (r, c) = gen_resources(0xC0FFEE, &GenParams::default());
    for strategy in [AliasStrategy::Slot, AliasStrategy::Bucket] {
        let a = plan(strategy, &r, &c, 64);
        let b = plan(strategy, &r, &c, 64);
        assert_eq!(a.0, b.0, "{strategy:?}: placements differ between runs");
        assert_eq!(a.1, b.1, "{strategy:?}: buckets differ between runs");
    }
}

#[test]
fn random_placements_hold_every_invariant() {
    let params = GenParams::default();
    for seed in 0..32u64 {
        let (resources, components) = gen_resources(seed, &params);
        for granularity in [1, 64, 1024] {
            for strategy in [AliasStrategy::Slot, AliasStrategy::Bucket, AliasStrategy::Off] {
                let (placements, buckets) = plan(strategy, &resources, &components, granularity);
                check_invariants(
                    &resources,
                    &placements,
                    &buckets,
                    granularity,
                    &format!("seed {seed} granularity {granularity} {strategy:?}"),
                );
            }
        }
    }
}

#[test]
fn bucket_beats_slot_on_average() {
    let params = GenParams::default();
    let (mut slot_total, mut bucket_total) = (0u64, 0u64);
    for seed in 0..32u64 {
        let (r, c) = gen_resources(seed, &params);
        slot_total += total_bytes(&plan(AliasStrategy::Slot, &r, &c, 64).1);
        bucket_total += total_bytes(&plan(AliasStrategy::Bucket, &r, &c, 64).1);
    }
    assert!(bucket_total < slot_total, "bucket {bucket_total} did not beat slot {slot_total}");
}

#[test]
fn off_gives_every_resource_a_bucket_of_its_own() {
    let r = vec![res(0, 4096, 0, 1), res(1, 1024, 2, 5), res(2, 512, 6, 7)];
    let (p, b) = plan(AliasStrategy::Off, &r, &one_component(&r), 64);
    assert_eq!(b.len(), 3);
    assert_eq!(total_bytes(&b), 4096 + 1024 + 512);
    let mut buckets: Vec<u32> = p.values().map(|p| p.bucket).collect();
    buckets.sort_unstable();
    assert_eq!(buckets, vec![0, 1, 2]);
}

#[test]
fn slots_start_at_zero_and_take_the_larger_size() {
    let r = vec![res(0, 4096, 0, 1), res(1, 1024, 2, 5)];
    let (p, b) = plan(AliasStrategy::Slot, &r, &one_component(&r), 64);
    assert_eq!(b, vec![BucketReqs { size: 4096, alignment: 256, memory_type_bits: 0b111, location: GPU }]);
    assert_eq!(p[&0], Placement { bucket: 0, offset: 0, size: 4096 });
    assert_eq!(p[&1], Placement { bucket: 0, offset: 0, size: 1024 });
}

#[test]
fn a_bucket_stacks_what_lives_at_once_at_aligned_offsets() {
    let r = vec![res(0, 4096, 0, 1), res(1, 1000, 2, 5), res(2, 1000, 2, 5)];
    let (p, b) = plan(AliasStrategy::Bucket, &r, &one_component(&r), 1);
    assert_eq!(b.len(), 1);
    assert_eq!((p[&1].offset, p[&2].offset), (0, 1024));
}

#[test]
fn the_live_peak_is_the_most_that_lives_at_once() {
    let r = vec![res(0, 100, 0, 1), res(1, 50, 1, 2), res(2, 30, 2, 3)];
    assert_eq!(live_bytes_lower_bound(&r), 150);
    assert_eq!(live_bytes_lower_bound(&Vec::new()), 0);
}

#[test]
fn places_overlap_only_within_one_bucket() {
    let a = Placement { bucket: 0, offset: 0, size: 100 };
    assert!(a.overlaps(&Placement { bucket: 0, offset: 99, size: 1 }));
    assert!(!a.overlaps(&Placement { bucket: 0, offset: 100, size: 1 }));
    assert!(!a.overlaps(&Placement { bucket: 1, offset: 0, size: 100 }));
}

#[test]
fn strategies_are_read_from_words() {
    assert_eq!(AliasStrategy::parse("slot"), (AliasStrategy::Slot, true));
    assert_eq!(AliasStrategy::parse(" Bucket "), (AliasStrategy::Bucket, true));
    assert_eq!(AliasStrategy::parse("OFF"), (AliasStrategy::Off, true));
    assert_eq!(AliasStrategy::parse("none"), (AliasStrategy::Off, true));
    assert_eq!(AliasStrategy::parse(""), (AliasStrategy::Slot, true));
    assert_eq!(AliasStrategy::parse("stacked"), (AliasStrategy::default(), false));
}

#[test]
fn an_empty_placement_shares_no_byte() {
    let empty = Placement { bucket: 0, offset: 5, size: 0 };
    let whole = Placement { bucket: 0, offset: 0, size: 10 };
    assert!(!empty.overlaps(&whole));
    assert!(!whole.overlaps(&empty));
    assert!(!empty.overlaps(&empty));
    assert!(whole.overlaps(&whole));
    assert!(whole.overlaps(&Placement { bucket: 0, offset: 9, size: 1 }));
    assert!(!whole.overlaps(&Placement { bucket: 0, offset: 10, size: 1 }));
    assert!(!whole.overlaps(&Placement { bucket: 1, offset: 9, size: 1 }));
}

#[test]
fn what_no_memory_suits_stands_alone() {
    let mut picky = res(1, 512, 2, 3);
    picky.memory_type_bits = 0;
    let resources = vec![res(0, 1024, 0, 1), picky, res(2, 256, 4, 5)];
    let components = one_component(&resources);
    let bound = live_bytes_lower_bound(&resources);
    assert_eq!(bound, 1024);
    for strategy in [AliasStrategy::Off, AliasStrategy::Slot, AliasStrategy::Bucket] {
        let (placements, buckets) = plan(strategy, &resources, &components, 1);
        assert!(total_bytes(&buckets) >= bound);
        let own = placements[&1].bucket;
        assert!(placements[&0].bucket != own && placements[&2].bucket != own);
        assert_eq!(buckets[own as usize].memory_type_bits, 0);
    }
}

#[test]
fn buckets_are_as_large_as_their_largest() {
    let (resources, components) = gen_resources(9, &GenParams::default());
    for strategy in [AliasStrategy::Off, AliasStrategy::Slot, AliasStrategy::Bucket] {
        let (placements, buckets) = plan(strategy, &resources, &components, 64);
        for (b, bucket) in buckets.iter().enumerate() {
            let largest = resources
                .iter()
                .filter(|r| placements[&r.id].bucket as usize == b)
                .map(|r| r.size)
                .max();
            assert_eq!(largest, Some(bucket.size));
        }
    }
}

#[test]
fn granularity_matters_to_packing_alone() {
    let (resources, components) = gen_resources(4, &GenParams::default());
    for strategy in [AliasStrategy::Off, AliasStrategy::Slot] {
        assert_eq!(
            plan(strategy, &resources, &components, 0),
            plan(strategy, &resources, &components, 4096)
        );
    }
    assert_ne!(
        plan(AliasStrategy::Bucket, &resources, &components, 1),
        plan(AliasStrategy::Bucket, &resources, &components, 65536)
    );
}
