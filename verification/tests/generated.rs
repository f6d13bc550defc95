//! Generated graphs.
use std::collections::HashMap;

use rand::rngs::StdRng;
use rand::{RngExt, SeedableRng};
use sunray::render_graph::alias::{plan, AliasStrategy};
use sunray::render_graph::bench_support::{gen_graph, gen_resources, GenParams};
use sunray::render_graph::resource::{GraphResourceDesc, GraphResourceInfo};

#[test]
fn one_seed_gives_one_graph() {
    let params = GenParams::default();
    let a = gen_graph(7, &params);
    let b = gen_graph(7, &params);
    assert_eq!(a.alias_resources, b.alias_resources);
    assert_eq!(a.alias_components, b.alias_components);
    assert_eq!(a.schedule_pos, b.schedule_pos);
    let c = gen_graph(8, &params);
    assert_ne!(a.alias_resources, c.alias_resources);
}

#[test]
fn a_graph_has_the_size_that_is_asked_for() {
    let params = GenParams { resources: 32, passes: 12, ..GenParams::default() };
    let fixture = gen_graph(3, &params);
    assert_eq!(fixture.pass_count(), 12);
    assert_eq!(fixture.resource_count(), fixture.alias_resources.len());
    assert!(fixture.resource_count() <= 32);
    assert_eq!(fixture.run_analyze(), fixture.analysis.components.len());
    assert_eq!(fixture.run_toposort(), 12);
    for r in &fixture.alias_resources {
        assert!(r.first_pass <= r.last_pass && r.last_pass < 12);
        assert!(r.alignment.is_power_of_two() && r.size > 0);
    }
}

#[test]
fn denser_packing_never_saves_barriers_it_needs() {
    let fixture = gen_graph(1, &GenParams::default());
    let (r, c) = fixture.alias_input();
    let plain = fixture.run_plan_barriers(&HashMap::new());
    let (placements, _) = plan(AliasStrategy::Off, r, c, 64);
    assert_eq!(fixture.run_plan_barriers(&placements), plain);
}

#[test]
fn resources_alone_are_those_of_the_graph() {
    let params = GenParams::default();
    let (resources, components) = gen_resources(5, &params);
    let fixture = gen_graph(5, &params);
    assert_eq!(resources, fixture.alias_resources);
    assert_eq!(components, fixture.alias_components);
}

#[test]
fn the_defaults_are_a_frame_of_some_size() {
    let params = GenParams::default();
    assert_eq!(
        (params.resources, params.passes, params.max_lifetime, params.reads_per_pass, params.rewrite_percent),
        (256, 64, 8, 4, 20)
    );
}

#[test]
fn resources_are_drawn_before_passes() {
    let params = GenParams::default();
    let fixture = gen_graph(11, &params);
    let mut rng = StdRng::seed_from_u64(11);
    let mut drawn: Vec<(u64, u64, u32, bool)> = Vec::new();
    for _ in 0..params.resources {
        let size = 1u64 << rng.random_range(10..=24);
        let size = size + rng.random_range(0..size);
        let alignment = 1u64 << rng.random_range(8..=16);
        let memory_type_bits = match rng.random_range(0..10) {
            0 => 0b0011,
            1 => 0b1100,
            _ => 0b1111,
        };
        let _upload: bool = rng.random_range(0..10) == 0;
        let is_image = rng.random_range(0..2) == 0;
        drawn.push((size, alignment, memory_type_bits, is_image));
    }
    for r in &fixture.alias_resources {
        let (size, alignment, memory_type_bits, _) = drawn[r.id as usize];
        assert_eq!((r.size, r.alignment, r.memory_type_bits), (size, alignment, memory_type_bits));
    }
    for (i, info) in fixture.virtual_resources.iter().enumerate() {
        let image = matches!(info, GraphResourceInfo::Created(GraphResourceDesc::Image(_)));
        assert_eq!(image, drawn[i].3);
    }
    // The first pass has nothing to read, so it draws the accesses of what it makes.
    let first = &fixture.declarations[0];
    assert!(first.0.is_empty());
    assert_eq!(first.1.len(), params.resources / params.passes);
    let names = ["ComputeShaderWrite", "AnyShaderWrite", "TransferWrite", "ColorAttachmentWrite"];
    for (i, r) in first.1.iter().enumerate() {
        let choice: usize = rng.random_range(0..4);
        assert_eq!(r.id, i as u32);
        assert_eq!(format!("{:?}", r.access.access_type), names[choice]);
    }
    // The second draws how much it reads.
    let count: usize = rng.random_range(0..=params.reads_per_pass);
    assert!(fixture.declarations[1].0.len() <= count);
}

#[test]
fn no_resource_outlives_its_bound() {
    let shapes = [
        GenParams::default(),
        GenParams { resources: 1, passes: 2, max_lifetime: 0, reads_per_pass: 0, rewrite_percent: 100 },
        GenParams { resources: 1, passes: 64, max_lifetime: 3, reads_per_pass: 4, rewrite_percent: 100 },
        GenParams { resources: 300, passes: 7, max_lifetime: 1, reads_per_pass: 9, rewrite_percent: 50 },
        GenParams { resources: 5, passes: 40, max_lifetime: 2, reads_per_pass: 3, rewrite_percent: 90 },
    ];
    for params in shapes {
        for seed in 0..8 {
            let fixture = gen_graph(seed, &params);
            assert_eq!(fixture.resource_count(), params.resources);
            for r in &fixture.alias_resources {
                assert_eq!(r.first_pass, r.id as usize * params.passes / params.resources);
                assert!(r.last_pass - r.first_pass <= params.max_lifetime);
            }
        }
    }
    // The bound is reached.
    let (resources, _) = gen_resources(2, &GenParams::default());
    assert!(resources.iter().any(|r| r.last_pass - r.first_pass == 8));
}
