//! Hazards, order and liveness of passes.
use std::collections::HashSet;

use vk_sync_fork::AccessType;

use sunray::error::ErrorSource;
use sunray::render_graph::access::{
    PassResourceAccessSyncType, PassResourceAccessType, ResourceRef,
};
use sunray::render_graph::analysis::analyze_passes;
use sunray::render_graph::liveness::live_passes;
use sunray::render_graph::schedule::kahn_toposort;

fn refs(ids: &[u32], write: bool) -> Vec<ResourceRef> {
    let access_type =
        if write { AccessType::ComputeShaderWrite } else { AccessType::ComputeShaderReadOther };
    ids.iter()
        .map(|id| ResourceRef {
            id: *id,
            access: PassResourceAccessType {
                access_type,
                sync_type: PassResourceAccessSyncType::AlwaysSync,
            },
        })
        .collect()
}

/// `(reads, writes)` per pass, by resource ids.
fn pass(reads: &[u32], writes: &[u32]) -> (Vec<ResourceRef>, Vec<ResourceRef>) {
    (refs(reads, false), refs(writes, true))
}

/// The liveness mask of some passes.
fn cull(
    decls: &Vec<(Vec<ResourceRef>, Vec<ResourceRef>)>,
    outputs: &[u32],
    temporal: &[u32],
    internal_count: usize,
) -> Vec<bool> {
    let analysis = analyze_passes(decls);
    let writes: Vec<Vec<ResourceRef>> = decls
        .iter()
        .map(|(_, w)| w.iter().map(|r| ResourceRef { id: r.id, access: r.access }).collect())
        .collect();
    let outputs: HashSet<u32> = outputs.iter().copied().collect();
    let temporal: HashSet<u32> = temporal.iter().copied().collect();
    live_passes(&writes, &analysis.raw_producers, &outputs, &temporal, internal_count)
}

#[test]
fn cull_keeps_the_chain_feeding_an_output() {
    let decls = vec![pass(&[], &[0]), pass(&[0], &[1]), pass(&[1], &[2])];
    assert_eq!(cull(&decls, &[2], &[], 0), vec![true, true, true]);
}

#[test]
fn cull_drops_a_pass_no_output_reaches() {
    let decls = vec![pass(&[], &[0]), pass(&[0], &[1]), pass(&[0], &[9])];
    assert_eq!(cull(&decls, &[1], &[], 0), vec![true, true, false]);
    assert_eq!(cull(&decls, &[9], &[], 0), vec![true, false, true]);
}

#[test]
fn cull_does_not_follow_write_after_read_edges() {
    let decls = vec![pass(&[], &[0]), pass(&[0], &[9]), pass(&[], &[0])];
    assert_eq!(cull(&decls, &[0], &[], 0), vec![true, false, true]);
}

#[test]
fn cull_roots_temporal_writes_and_the_internal_prefix() {
    let decls = vec![pass(&[], &[0]), pass(&[0], &[7]), pass(&[], &[9])];
    assert_eq!(cull(&decls, &[], &[7], 1), vec![true, true, false]);
}

#[test]
fn hazards_become_edges() {
    // write, two reads, write: each read waits for the first write, the second write
    // for both reads.
    let decls = vec![pass(&[], &[0]), pass(&[0], &[]), pass(&[0], &[]), pass(&[], &[0])];
    let analysis = analyze_passes(&decls);
    let mut edges: Vec<(usize, usize)> = analysis
        .dep_graph
        .edge_indices()
        .map(|e| {
            let (a, b) = analysis.dep_graph.edge_endpoints(e).expect("the edge is there");
            (a.index(), b.index())
        })
        .collect();
    edges.sort_unstable();
    assert_eq!(edges, vec![(0, 1), (0, 2), (1, 3), (2, 3)]);
    assert_eq!(analysis.raw_producers, vec![vec![], vec![0], vec![0], vec![]]);
    assert_eq!(analysis.resource_usages[&0].first_pass, 0);
    assert_eq!(analysis.resource_usages[&0].last_pass, 3);
    assert_eq!(analysis.components.len(), 1);
    assert_eq!(analysis.components[0].passes, vec![0, 1, 2, 3]);
    assert_eq!(analysis.components[0].resources, vec![0]);
}

#[test]
fn passes_that_share_nothing_are_components_of_their_own() {
    let decls = vec![pass(&[], &[0]), pass(&[], &[1]), pass(&[0], &[])];
    let analysis = analyze_passes(&decls);
    let passes: Vec<Vec<usize>> = analysis.components.iter().map(|c| c.passes.clone()).collect();
    assert_eq!(passes, vec![vec![0, 2], vec![1]]);
}

#[test]
fn the_schedule_is_the_order_of_declaration() {
    let decls = vec![pass(&[], &[0]), pass(&[], &[1]), pass(&[0, 1], &[2]), pass(&[2], &[3])];
    let analysis = analyze_passes(&decls);
    let order = kahn_toposort(&analysis.dep_graph).expect("no cycle");
    assert_eq!(order, vec![0, 1, 2, 3]);
}

#[test]
fn a_cycle_has_no_schedule() {
    let mut graph: petgraph::graph::DiGraph<usize, Vec<u32>> = petgraph::graph::DiGraph::new();
    let a = graph.add_node(0);
    let b = graph.add_node(1);
    graph.add_edge(a, b, vec![0]);
    graph.add_edge(b, a, vec![0]);
    let e = kahn_toposort(&graph).expect_err("there is a cycle");
    assert!(
        matches!(e.get_source(), ErrorSource::Custom(text) if text == "render graph dependency graph contains a cycle")
    );
}

#[test]
fn ties_go_to_the_least_pass() {
    let mut graph: petgraph::graph::DiGraph<usize, Vec<u32>> = petgraph::graph::DiGraph::new();
    let nodes: Vec<petgraph::graph::NodeIndex> = (0..4).map(|i| graph.add_node(i)).collect();
    graph.add_edge(nodes[3], nodes[0], vec![7]);
    let order = kahn_toposort(&graph).expect("no cycle");
    assert_eq!(order, vec![1, 2, 3, 0]);
}

#[test]
fn readers_of_one_resource_are_one_component() {
    let analysis = analyze_passes(&vec![pass(&[0], &[]), pass(&[0], &[])]);
    assert_eq!(analysis.dep_graph.edge_count(), 0);
    assert_eq!(analysis.components.len(), 1);
    assert_eq!(analysis.components[0].passes, vec![0, 1]);
    assert_eq!(analysis.components[0].resources, vec![0]);
}

#[test]
fn sharing_goes_from_pass_to_pass() {
    let decls = vec![
        pass(&[3], &[0]),
        pass(&[], &[1]),
        pass(&[0, 4], &[]),
        pass(&[4], &[5]),
        pass(&[1], &[]),
        pass(&[], &[]),
    ];
    let analysis = analyze_passes(&decls);
    let passes: Vec<Vec<usize>> = analysis.components.iter().map(|c| c.passes.clone()).collect();
    let resources: Vec<Vec<u32>> =
        analysis.components.iter().map(|c| c.resources.clone()).collect();
    assert_eq!(passes, vec![vec![0, 2, 3], vec![1, 4], vec![5]]);
    assert_eq!(resources, vec![vec![0, 3, 4, 5], vec![1], vec![]]);
}
