//! Frames shown as text.
use std::collections::HashMap;

use vk_sync_fork::AccessType;

use sunray::render_graph::alias::{AliasStrategy, MemoryLocation, Placement};
use sunray::render_graph::graph::{AnyRenderPass, RenderGraph};
use sunray::render_graph::graph_debug::{escape, file_stem, GraphDump};
use sunray::render_graph::memory_plan::MemoryRequirements;
use sunray::render_graph::pass_builder::{
    ComputeQueueAffinity, ComputeRenderPass, PassCommonDataBuilder,
};
use sunray::render_graph::resource::{
    BoundBuffer, BufferDesc, GraphResourceImportInfo, ImageDesc,
};
use sunray::render_graph::transient_resources::{SlotAllocation, TransientResources};

/// An image that one pass writes and the next reads, and an imported buffer that the
/// second pass writes.
fn graph() -> RenderGraph {
    let mut rg = RenderGraph::new();
    let img = rg.create_resource(ImageDesc {
        extent: (8, 8, 1),
        format: 37,
        tiling: 0,
        location: MemoryLocation::GpuOnly,
        usage: 0x8,
        name: "img",
    });
    let buf = rg.import(
        BufferDesc {
            byte_size: 64,
            alignment: 16,
            memory_location: MemoryLocation::GpuOnly,
            usage: 0x20,
            name: "buf",
        },
        GraphResourceImportInfo::Buffer {
            resource: BoundBuffer { token: 3, byte_size: 64 },
            access_types: vec![AccessType::TransferRead],
        },
    );
    let mut first = PassCommonDataBuilder::new(&mut rg, "fir\"st");
    first.write(&img, AccessType::ComputeShaderWrite).expect("a write");
    let first = first.build();
    rg.add_render_pass(AnyRenderPass::Compute(ComputeRenderPass {
        common: first,
        shaders: None,
        queue_affinity: ComputeQueueAffinity::Inferred,
    }));
    let mut second = PassCommonDataBuilder::new(&mut rg, "second");
    second.read(&img, AccessType::ComputeShaderReadOther).expect("a read");
    second.write(&buf, AccessType::ComputeShaderWrite).expect("a write");
    let second = second.build();
    rg.add_render_pass(AnyRenderPass::Compute(ComputeRenderPass {
        common: second,
        shaders: None,
        queue_affinity: ComputeQueueAffinity::Inferred,
    }));
    rg
}

fn requirements() -> HashMap<u32, MemoryRequirements> {
    HashMap::from([(0, MemoryRequirements { size: 256, alignment: 256, memory_type_bits: 1 })])
}

#[test]
fn a_frame_is_shown_as_text() {
    let mut rg = graph();
    let plan = rg.compile(AliasStrategy::Slot, &requirements(), 1).expect("compiles");
    let dump = rg.dump_graph(12, &plan, "REPORT".to_string());
    let text = dump.to_text();
    let lines: Vec<&str> = text.lines().collect();
    assert_eq!(lines[0], "=== Render graph frame 12 ===");
    assert_eq!(lines[2], "Passes (res<id> = transient, ext<id> = external/imported):");
    assert_eq!(lines[3], "  pass 0: __imports");
    assert!(lines[4].starts_with("      R ext1 "), "{}", lines[4]);
    assert!(lines[4].ends_with(" [TransferRead] <-- first use"), "{}", lines[4]);
    assert_eq!(lines[5], "  pass 1: fir\"st");
    assert!(lines[6].starts_with("      W res0 "), "{}", lines[6]);
    assert!(lines[6].ends_with(" [ComputeShaderWrite] <-- first use"), "{}", lines[6]);
    assert_eq!(lines[7], "  pass 2: second");
    assert!(lines[8].starts_with("      R res0 "), "{}", lines[8]);
    assert!(lines[8].ends_with(" [ComputeShaderReadOther] <-- last use"), "{}", lines[8]);
    assert!(lines[9].starts_with("      W ext1 "), "{}", lines[9]);
    assert!(lines[9].ends_with(" [ComputeShaderWrite] <-- last use"), "{}", lines[9]);
    assert_eq!(
        lines[11],
        "Resources (id | kind | detail | live passes | bucket@offset | cross-frame access):"
    );
    assert!(lines[12].starts_with("    0 | created-image    | "), "{}", lines[12]);
    assert!(lines[12].ends_with(" | 1..2     | 0@0              | -"), "{}", lines[12]);
    assert!(lines[13].starts_with("    1 | imported-buffer  | "), "{}", lines[13]);
    assert!(lines[13].ends_with(" | 0..2     | -                | [TransferRead]"), "{}", lines[13]);
    assert_eq!(lines[15], "Dependency edges — ordering only (src -> dst : resources):");
    assert!(text.contains("  pass 1 -> pass 2\n      res0 "));
    assert!(text.contains("  pass 0 -> pass 2\n      ext1 "));
    assert!(text.contains("\nBarriers (3 transitions at 2 point(s), in schedule order):\n"));
    assert!(text.contains("[Nothing]->[ComputeShaderWrite] [discard]\n"));
    assert!(text.ends_with("\nREPORT\n"));
}

#[test]
fn a_frame_is_shown_as_a_graph() {
    let mut rg = graph();
    let plan = rg.compile(AliasStrategy::Slot, &requirements(), 1).expect("compiles");
    let dump = rg.dump_graph(12, &plan, String::new());
    let dot = dump.to_dot();
    assert!(dot.starts_with("digraph render_graph_frame_12 {\n  rankdir=TB;\n"));
    assert!(dot.contains("  pass_1 [label=\"pass 1: fir\\\"st\\l"));
    assert!(dot.contains("  barrier_1 [shape=note, style=filled, fillcolor=\"#ffe8b3\", label=\"barriers before pass 1\\n"));
    assert!(dot.contains("  barrier_1 -> pass_1 [style=dashed, color=\"#b38f00\"];\n"));
    assert!(dot.contains("  pass_1 -> pass_2;\n"));
    assert!(dot.ends_with("}\n"));
}

#[test]
fn names_of_dumps_have_five_digits() {
    assert_eq!(file_stem(7), "graph_frame_00007");
    assert_eq!(file_stem(123456), "graph_frame_123456");
}

#[test]
fn quotes_and_backslashes_are_escaped() {
    assert_eq!(escape("a\\b\"c"), "a\\\\b\\\"c");
}

#[test]
fn unknown_resources_are_shown_by_number() {
    let none = Vec::new();
    let dump = GraphDump {
        frame: 0,
        pass_names: vec![],
        pass_uses: vec![],
        edges: vec![],
        resources: vec![],
        barriers_at: &none,
        aliasing_report: String::new(),
    };
    assert_eq!(dump.res_label(4), "res4");
    assert!(dump.to_text().contains("Barriers (0 transitions at 0 point(s), in schedule order):\n  (none)\n"));
}

#[test]
fn shared_memory_is_reported() {
    let mut rg = graph();
    let plan = rg.compile(AliasStrategy::Slot, &requirements(), 1).expect("compiles");
    let chunks = vec![SlotAllocation { size: 512, offset: 1024, memory: 0xab }];
    let objects: HashMap<u32, u64> = HashMap::from([(0, 41)]);
    let mut tr =
        TransientResources::populate(&rg.virtual_resources, plan.placements, chunks, &objects);
    assert_eq!(tr.allocated_bytes(), 512);
    assert_eq!(tr.requested_bytes(), 256);
    let expected = [
        "",
        "=== TransientResources aliasing report ===",
        "resources tracked           : 2",
        "  transient images          : 1",
        "  transient buffers         : 0",
        "  transient samplers        : 0",
        "  imported                  : 1",
        "aliasable resources (img+buf): 1",
        "bucket allocations          : 1",
        "allocated / requested bytes : 512 / 256 (200%)",
        "",
        "Per-bucket allocation:",
        "  bucket 0: size=     512 offset=    1024 memory=0xab",
        "",
        "Aliasing groups (bucket -> resources sharing memory):",
        "  bucket 0 (512 bytes)",
        "    res   0 Image 8x8x1                  @         0..256      ",
        "",
        "Imported resources:",
        "  res 1 Buffer",
        "",
        "Barriers recorded: none (graph not compiled or single-pass)",
        "==========================================",
        "",
    ];
    assert_eq!(tr.report("200"), expected.join("\n"));

    tr.recorded_barriers = plan.barriers;
    let report = tr.report("200");
    assert!(report.contains("Barriers recorded (3 total across 2 pass(es), in topo order):\n  before pass 1:\n"));
    assert!(report.contains("    res   0 (Image      ) [Nothing] -> [ComputeShaderWrite]  [discard]\n"));
    assert!(report.contains(
        "    res   0 (Image      ) [ComputeShaderWrite] -> [ComputeShaderReadOther]  [folded into global]\n"
    ));
    assert!(report.contains("    res   1 (Buffer     ) [TransferRead] -> [ComputeShaderWrite]\n"));
}

#[test]
fn what_shares_a_bucket_is_marked() {
    let mut tr = TransientResources::new();
    tr.slot_allocations.push(SlotAllocation { size: 64, offset: 0, memory: 1 });
    tr.resource_count = 2;
    tr.placements.insert(0, Placement { bucket: 0, offset: 32, size: 32 });
    tr.placements.insert(1, Placement { bucket: 0, offset: 0, size: 32 });
    tr.transient_buffers.insert(0, BoundBuffer { token: 5, byte_size: 30 });
    let report = tr.report("100");
    assert!(report.contains(
        "  bucket 0 (64 bytes) (ALIASED)\n    res   1 ???                          @         0..32       \n    res   0 Buffer 30 bytes              @        32..64       \n"
    ));
}
