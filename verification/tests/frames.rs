//! Frames: declared, compiled, bound and submitted.
use std::collections::HashMap;

use vk_sync_fork::AccessType;

use sunray::error::{ErrorSource, GraphError, SrError};
use sunray::render_graph::alias::{AliasStrategy, MemoryLocation};
use sunray::render_graph::compile::FramePlan;
use sunray::render_graph::graph::{AnyRenderPass, QueueRole, RenderGraph};
use sunray::render_graph::memory_plan::{check_buckets, MemoryRequirements};
use sunray::render_graph::pass_builder::{
    BufferCopy, ComputeQueueAffinity, ComputeRenderPass, CopyEnd, PassCommonDataBuilder, RenderJob,
    TransferPassBuilder,
};
use sunray::render_graph::resource::{
    AccelerationDesc, AccelerationStructure, BoundBuffer, BoundImage, BufferDesc,
    GraphResourceImportInfo, GraphResourceInfo, Handle, Image, ImageDesc, RawBuffer, SamplerDesc,
};
use sunray::render_graph::submission::{PresentImage, STAGE_ALL_COMMANDS};
use sunray::render_graph::transient_resources::{
    aspect_for, bind_offset, buffer_slots, epoch_layout, image_slots, SlotAllocation,
    TransientResources, ASPECT_COLOR, ASPECT_DEPTH, ASPECT_DEPTH_STENCIL, ASPECT_STENCIL,
    FORMAT_D24_UNORM_S8_UINT, FORMAT_D32_SFLOAT, FORMAT_S8_UINT,
};

fn image(size: u32, name: &'static str) -> ImageDesc {
    ImageDesc {
        extent: (size, size, 1),
        format: 37,
        tiling: 0,
        location: MemoryLocation::GpuOnly,
        usage: 0x8 | 0x1,
        name,
    }
}

fn buffer(bytes: u64, name: &'static str) -> BufferDesc {
    BufferDesc {
        byte_size: bytes,
        alignment: 16,
        memory_location: MemoryLocation::GpuOnly,
        usage: 0x20 | 0x1,
        name,
    }
}

fn sampler() -> SamplerDesc {
    SamplerDesc {
        min_filter: 1,
        mag_filter: 1,
        address_mode_u: 0,
        address_mode_v: 0,
        address_mode_w: 0,
        mipmap_mode: 1,
    }
}

fn custom(e: &SrError) -> &str {
    match e.get_source() {
        ErrorSource::Custom(text) => text,
        other => panic!("another source: {other:?}"),
    }
}

/// What a device would ask for: four bytes a pixel, and a buffer's own size.
fn requirements(rg: &RenderGraph) -> HashMap<u32, MemoryRequirements> {
    let mut map = HashMap::new();
    for (id, info) in rg.virtual_resources.iter().enumerate() {
        let size = match info {
            GraphResourceInfo::Created(sunray::render_graph::resource::GraphResourceDesc::Image(d)) => {
                d.extent.0 as u64 * d.extent.1 as u64 * 4
            }
            GraphResourceInfo::Created(sunray::render_graph::resource::GraphResourceDesc::Buffer(d)) => {
                d.byte_size
            }
            _ => continue,
        };
        map.insert(id as u32, MemoryRequirements { size, alignment: 256, memory_type_bits: 0b111 });
    }
    map
}

fn compile(rg: &mut RenderGraph) -> FramePlan {
    let needs = requirements(rg);
    rg.compile(AliasStrategy::Slot, &needs, 64).expect("compiles")
}

/// Adds a compute pass.
fn add_pass(rg: &mut RenderGraph, name: &str, reads: &[&Handle<Image>], writes: &[&Handle<Image>]) {
    let mut common = PassCommonDataBuilder::new(rg, name);
    for h in reads {
        common.read(h, AccessType::ComputeShaderReadOther).expect("a read");
    }
    for h in writes {
        common.write(h, AccessType::ComputeShaderWrite).expect("a write");
    }
    rg.add_render_pass(AnyRenderPass::Compute(ComputeRenderPass {
        common: common.build(),
        shaders: None,
        queue_affinity: ComputeQueueAffinity::Inferred,
    }));
}

fn names(rg: &RenderGraph) -> Vec<&str> {
    rg.passes.iter().map(|p| p.common().name.as_str()).collect()
}

/// The graph of the aliasing report: two images at once, then an image and a buffer, then
/// a buffer; and a sampler.
fn aliasing_graph() -> RenderGraph {
    let mut rg = RenderGraph::new();
    let img_256 = rg.create_resource(image(256, "img_256"));
    let img_512 = rg.create_resource(image(512, "img_512"));
    let img_128 = rg.create_resource(image(128, "img_128"));
    let buf_4k = rg.create_resource(buffer(4096, "buf_4k"));
    let buf_1k = rg.create_resource(buffer(1024, "buf_1k"));
    rg.create_resource(sampler());
    let touch = |rg: &mut RenderGraph, name: &str, images: &[&Handle<Image>], buffers: &[&Handle<RawBuffer>]| {
        let mut common = PassCommonDataBuilder::new(rg, name);
        for h in images {
            common.write(h, AccessType::ComputeShaderWrite).expect("a write");
        }
        for h in buffers {
            common.write(h, AccessType::ComputeShaderWrite).expect("a write");
        }
        rg.add_render_pass(AnyRenderPass::Compute(ComputeRenderPass {
            common: common.build(),
            shaders: None,
            queue_affinity: ComputeQueueAffinity::Inferred,
        }));
    };
    // One chain of passes, so that the resources are of one component.
    let chain = rg.create_resource(image(1, "chain"));
    touch(&mut rg, "p0", &[&img_256, &img_512, &chain], &[]);
    touch(&mut rg, "p1", &[&img_256, &img_512, &chain], &[]);
    touch(&mut rg, "p2", &[&img_128, &chain], &[&buf_4k]);
    touch(&mut rg, "p3", &[&img_128, &chain], &[&buf_4k]);
    touch(&mut rg, "p4", &[&chain], &[&buf_1k]);
    touch(&mut rg, "p5", &[&chain], &[&buf_1k]);
    rg
}

#[test]
fn transient_aliasing_debug() {
    let mut rg = aliasing_graph();
    let plan = compile(&mut rg);
    let objects: HashMap<u32, u64> = (0..7).map(|id| (id, 100 + id as u64)).collect();
    let chunks: Vec<SlotAllocation> = plan
        .buckets
        .iter()
        .enumerate()
        .map(|(i, b)| SlotAllocation { size: b.size, offset: 0, memory: i as u64 + 1 })
        .collect();
    let transient =
        TransientResources::populate(&rg.virtual_resources, plan.placements, chunks, &objects);

    assert!(
        !transient.placements[&0].overlaps(&transient.placements[&1]),
        "res 0 and 1 overlap in time; they must not overlap in memory"
    );
    assert!(
        !transient.placements[&2].overlaps(&transient.placements[&3]),
        "res 2 and 3 overlap in time; they must not overlap in memory"
    );
    assert!(
        transient.slot_allocations.len() < 5,
        "expected aliasing to reduce the resources to fewer buckets; got {} buckets",
        transient.slot_allocations.len()
    );
    assert_eq!(transient.transient_samplers.len(), 1);
    assert!(!transient.placements.contains_key(&5));
}

#[test]
fn compile_runs_passes_in_topo_order() {
    let mut rg = RenderGraph::new();
    let img_a = rg.create_resource(image(64, "img_a"));
    let img_b = rg.create_resource(image(64, "img_b"));
    add_pass(&mut rg, "producer", &[], &[&img_a]);
    add_pass(&mut rg, "consumer", &[&img_a], &[&img_b]);

    let plan = compile(&mut rg);

    let order: Vec<&str> =
        plan.order.iter().map(|p| rg.passes[*p].common().name.as_str()).collect();
    assert_eq!(order, vec!["producer", "consumer"], "topo order violated");
    assert!(plan.placements.contains_key(&0), "img_a not bound after populate");
    assert!(
        !plan.barriers.is_empty(),
        "expected at least one recorded barrier between producer and consumer"
    );
    let before_consumer = &plan.barriers.iter().find(|(p, _)| *p == 1).expect("barriers").1;
    assert!(before_consumer
        .iter()
        .any(|b| b.resource_id == 0 && b.prev == vec![AccessType::ComputeShaderWrite]));
}

#[test]
fn compile_culls_a_pass_that_reaches_no_output() {
    let mut rg = RenderGraph::new();
    let img_a = rg.create_resource(image(64, "img_a"));
    let img_dead = rg.create_resource(image(64, "img_dead"));
    add_pass(&mut rg, "live", &[], &[&img_a]);
    add_pass(&mut rg, "dead", &[&img_a], &[&img_dead]);

    rg.mark_output(&img_a);
    let plan = compile(&mut rg);

    assert_eq!(names(&rg), vec!["live"], "the dead pass survived the cull");
    assert!(
        !plan.placements.contains_key(&img_dead.id),
        "img_dead was allocated despite its only writer being culled"
    );
    assert!(plan.placements.contains_key(&img_a.id));
}

#[test]
fn without_results_nothing_is_culled() {
    let mut rg = RenderGraph::new();
    let img_a = rg.create_resource(image(64, "img_a"));
    let img_b = rg.create_resource(image(64, "img_b"));
    add_pass(&mut rg, "one", &[], &[&img_a]);
    add_pass(&mut rg, "two", &[&img_a], &[&img_b]);
    compile(&mut rg);
    assert_eq!(names(&rg), vec!["one", "two"]);
}

#[test]
fn imports_carry_their_access_in_through_a_pass_of_the_graph() {
    let mut rg = RenderGraph::new();
    let kept = rg.import(
        image(8, "kept"),
        GraphResourceImportInfo::Image {
            resource: BoundImage { token: 7, extent: (8, 8, 1), format: 37 },
            access_types: vec![AccessType::TransferRead],
        },
    );
    add_pass(&mut rg, "writer", &[], &[&kept]);
    let plan = compile(&mut rg);
    assert_eq!(names(&rg), vec!["__imports", "writer"]);
    let (pass, barriers) = &plan.barriers[0];
    assert_eq!(*pass, 1);
    assert_eq!(barriers[0].prev, vec![AccessType::TransferRead]);
    assert_eq!(barriers[0].next, vec![AccessType::ComputeShaderWrite]);
    assert!(!barriers[0].discard);
    assert!(rg.end_state(&kept).expect("an end state").last_write == Some(AccessType::ComputeShaderWrite));
}

#[test]
fn an_import_can_be_treated_as_left_otherwise() {
    let mut rg = RenderGraph::new();
    rg.import_with_usage(
        image(8, "kept"),
        GraphResourceImportInfo::Image {
            resource: BoundImage { token: 7, extent: (8, 8, 1), format: 37 },
            access_types: vec![AccessType::TransferRead],
        },
        AccessType::HostRead,
    );
    match &rg.virtual_resources[0] {
        GraphResourceInfo::Imported(GraphResourceImportInfo::Image { access_types, .. }) => {
            assert_eq!(*access_types, vec![AccessType::HostRead])
        }
        other => panic!("{other:?}"),
    }
}

#[test]
fn temporal_copies_carry_their_end_state_into_the_next_frame() {
    let mut rg = RenderGraph::new();
    let token = rg.create_temporal_resource(image(8, "history"), [11, 12], 3).expect("an image");
    assert_eq!(rg.temporal_frame_of_creation(&token), 3);
    assert_eq!(rg.temporal_backings(&token), [11, 12]);

    let copies = rg.register_temporal_resource(&token);
    assert_eq!((copies[0].id, copies[1].id), (0, 1));
    add_pass(&mut rg, "accumulate", &[&copies[1]], &[&copies[0]]);
    compile(&mut rg);
    // The frame after finds the copies as this one left them.
    let left: Vec<Vec<AccessType>> = rg.temporal_resources[0]
        .imports
        .iter()
        .map(|import| match import {
            GraphResourceImportInfo::Image { access_types, .. } => access_types.clone(),
            other => panic!("{other:?}"),
        })
        .collect();
    assert_eq!(left[0], vec![AccessType::ComputeShaderWrite]);
    assert_eq!(left[1], vec![AccessType::ComputeShaderReadOther]);

    rg.reset(1);
    assert!(rg.passes.is_empty() && rg.virtual_resources.is_empty());
    assert_eq!(rg.temporal_resources.len(), 1);
    rg.clear_temporal_resources();
    assert!(rg.temporal_resources.is_empty());
}

#[test]
fn samplers_cannot_be_temporal() {
    let mut rg = RenderGraph::new();
    let e = match rg.create_temporal_resource(sampler(), [1, 2], 0) {
        Ok(_) => panic!("a sampler was kept"),
        Err(e) => e,
    };
    assert_eq!(custom(&e), "temporal resources are only supported for images and buffers");
}

#[test]
fn the_wrong_kind_of_access_is_refused() {
    let mut rg = RenderGraph::new();
    let img = rg.create_resource(image(8, "img"));
    let mut common = PassCommonDataBuilder::new(&mut rg, "p");
    let e = common.read(&img, AccessType::ComputeShaderWrite).expect_err("a write");
    assert!(matches!(
        e.get_source(),
        ErrorSource::RenderGraph(GraphError::IncorrectRenderAccessFlags)
    ));
    assert!(e.description.starts_with("asked to read with such access: ComputeShaderWrite"));
    let e = common.write(&img, AccessType::TransferRead).expect_err("a read");
    assert!(e.description.starts_with("asked to write with such access: TransferRead"));
    let common = common.build();
    assert!(common.read.is_empty() && common.write.is_empty());
}

#[test]
fn a_build_of_a_structure_waits_for_what_it_reads() {
    let mut rg = RenderGraph::new();
    let import = |token: u64| GraphResourceImportInfo::RayTracingAcceleration {
        resource: token,
        access_types: vec![],
    };
    let blas: Handle<AccelerationStructure> =
        rg.import(AccelerationDesc { byte_size: 64 }, import(1));
    let tlas = rg.import(AccelerationDesc { byte_size: 64 }, import(2));
    rg.add_as_build_pass("blas", &blas, &Vec::new(), 5, 6).expect("declared");
    let deps = vec![blas];
    rg.add_as_build_pass("tlas", &tlas, &deps, 7, 8).expect("declared");
    assert_eq!(names(&rg), vec!["blas", "tlas"]);
    assert_eq!(rg.passes[1].common().read[0].id, 0);
    assert_eq!(rg.passes[1].common().write[0].id, 1);
    assert_eq!(
        rg.passes[0].common().render,
        Some(RenderJob::BuildAccelerationStructure { job: 5, scratch: 6 })
    );
    assert_eq!(rg.passes[1].queue_role(), QueueRole::Graphics);
}

#[test]
fn staging_copies_run_first() {
    let mut rg = RenderGraph::new();
    let dst = rg.import(
        buffer(256, "arena"),
        GraphResourceImportInfo::Buffer {
            resource: BoundBuffer { token: 3, byte_size: 256 },
            access_types: vec![],
        },
    );
    let id = dst.id;
    let region = BufferCopy { src_offset: 0, dst_offset: 128, size: 64 };
    rg.add_prologue_buffer_copies(&vec![(77, 64, dst, region)]).expect("in bounds");
    let again = Handle::<RawBuffer> {
        id,
        desc: buffer(256, "arena"),
        marker: std::marker::PhantomData,
    };
    let mut common = PassCommonDataBuilder::new(&mut rg, "reader");
    common.read(&again, AccessType::ComputeShaderReadOther).expect("a read");
    rg.add_render_pass(AnyRenderPass::Compute(ComputeRenderPass {
        common: common.build(),
        shaders: None,
        queue_affinity: ComputeQueueAffinity::AsyncCompute,
    }));
    assert_eq!(rg.passes[0].queue_role(), QueueRole::AsyncCompute);
    let plan = compile(&mut rg);
    assert_eq!(rg.passes.len(), 3);
    assert_eq!(rg.passes[0].common().name, "__imports");
    assert_eq!(rg.passes[1].common().name, "__prologue_copies");
    match &rg.passes[1] {
        AnyRenderPass::Transfer(pass) => {
            assert!(matches!(pass.copies[0].0, CopyEnd::Raw(77)));
            assert!(matches!(pass.copies[0].1, CopyEnd::Handle(0)));
        }
        other => panic!("{}", other.common().name),
    }
    assert_eq!(rg.passes[1].queue_role(), QueueRole::Transfer);
    assert_eq!(plan.barriers[0].1[0].prev, vec![AccessType::TransferWrite]);
}

#[test]
fn copies_out_of_bounds_are_refused() {
    let mut rg = RenderGraph::new();
    let import = || GraphResourceImportInfo::Buffer {
        resource: BoundBuffer { token: 3, byte_size: 256 },
        access_types: vec![],
    };
    let dst = rg.import(buffer(256, "arena"), import());
    let region = BufferCopy { src_offset: 10, dst_offset: 0, size: 64 };
    let e = rg
        .add_prologue_buffer_copies(&vec![(77, 64, dst, region)])
        .expect_err("beyond the end");
    assert_eq!(
        custom(&e),
        "copy source \"arena staging\" holds 64 bytes; asked for 64 at offset 10"
    );
    assert!(rg.prologue_copies.is_empty());
}

#[test]
fn a_bucket_without_a_memory_type_is_refused() {
    let buckets = vec![
        sunray::render_graph::alias::BucketReqs {
            size: 1,
            alignment: 1,
            memory_type_bits: 1,
            location: MemoryLocation::GpuOnly,
        },
        sunray::render_graph::alias::BucketReqs {
            size: 1,
            alignment: 1,
            memory_type_bits: 0,
            location: MemoryLocation::GpuOnly,
        },
    ];
    assert!(check_buckets(&buckets[..1].to_vec()).is_ok());
    let e = check_buckets(&buckets).expect_err("no memory type");
    assert_eq!(custom(&e), "transient bucket 1: empty memory_type_bits after aliasing");
}

#[test]
fn a_submission_follows_the_frame_before() {
    let s = RenderGraph::submission(5, 9, &vec![(1, 0, 2)], &vec![]);
    assert_eq!(s.waits, vec![(9, 4, STAGE_ALL_COMMANDS), (1, 0, 2)]);
    assert_eq!(s.signals, vec![(9, 5, STAGE_ALL_COMMANDS)]);
    let first = RenderGraph::submission(0, 9, &vec![], &vec![(3, 0, 4)]);
    assert_eq!(first.waits, vec![(9, 0, STAGE_ALL_COMMANDS)]);
    assert_eq!(first.signals, vec![(9, 0, STAGE_ALL_COMMANDS), (3, 0, 4)]);
    assert_eq!(
        RenderGraph::binary_waits(&vec![4, 5], &vec![1, 2]),
        vec![(4, 0, 1), (5, 0, 2)]
    );
}

#[test]
fn a_slot_is_free_once_its_last_frame_is_done() {
    assert_eq!(RenderGraph::wait_for_slot_reuse(0), None);
    assert_eq!(RenderGraph::wait_for_slot_reuse(1), None);
    assert_eq!(RenderGraph::wait_for_slot_reuse(2), Some(1));
    assert_eq!(RenderGraph::current_slot(5), 1);
}

#[test]
fn a_presented_image_goes_back_to_how_it_was_left() {
    let mut rg = RenderGraph::new();
    let img = rg.create_resource(image(8, "img"));
    add_pass(&mut rg, "writer", &[], &[&img]);
    compile(&mut rg);
    let (pre, post) = rg.present_transitions(&img, AccessType::Present);
    assert_eq!(pre[0].image, PresentImage::Source);
    assert_eq!(pre[0].prev, vec![AccessType::ComputeShaderWrite]);
    assert_eq!(pre[0].next, vec![AccessType::TransferRead]);
    assert!(pre[1].discard);
    assert_eq!(post[0].next, vec![AccessType::Present]);
    assert_eq!(post[1].next, vec![AccessType::ComputeShaderWrite]);
}

#[test]
fn submitted_frames_are_parked_in_their_slot() {
    let mut rg = RenderGraph::new();
    let img = rg.create_resource(image(8, "img"));
    add_pass(&mut rg, "writer", &[], &[&img]);
    rg.retire(3);
    assert!(rg.passes.is_empty());
    assert_eq!(rg.retired_passes[1].len(), 1);
    assert_eq!(rg.retired_resources[1].len(), 1);
    rg.reset(2);
    assert_eq!(rg.retired_passes[1].len(), 1);
    rg.reset(5);
    assert!(rg.retired_passes[1].is_empty());
}

#[test]
fn resources_are_found_by_their_numbers() {
    let mut rg = RenderGraph::new();
    let img = rg.create_resource(image(8, "img"));
    let buf = rg.create_resource(buffer(64, "buf"));
    add_pass(&mut rg, "p", &[], &[&img]);
    let plan = compile(&mut rg);
    let chunks = vec![SlotAllocation { size: 256, offset: 512, memory: 1 }];
    let objects: HashMap<u32, u64> = HashMap::from([(0, 41), (1, 42)]);
    let place = plan.placements[&0];
    let tr = TransientResources::populate(&rg.virtual_resources, plan.placements, chunks, &objects);
    assert_eq!(bind_offset(&tr.slot_allocations[0], &place), 512);
    assert_eq!(tr.image(&img).expect("bound").token, 41);
    assert!(tr.image_by_id(9).is_none());
    assert!(tr.buffer_by_id(buf.id).is_none(), "no pass touches it");
    assert_eq!(tr.resolve(&CopyEnd::Raw(5)).expect("a token"), 5);
    let e = tr.resolve(&CopyEnd::Handle(1)).expect_err("not bound");
    assert!(matches!(
        e.get_source(),
        ErrorSource::RenderGraph(GraphError::InvalidResourceRef)
    ));
    let lost = Handle::<Image> { id: 9, desc: image(8, "lost"), marker: std::marker::PhantomData };
    let e = tr.image(&lost).expect_err("not there");
    assert_eq!(
        custom(&e),
        "render graph: no image bound for resource id 9 (not created or imported as an image)"
    );
}

#[test]
fn barriers_fold_where_no_layout_changes() {
    let mut rg = RenderGraph::new();
    let img = rg.create_resource(image(8, "img"));
    add_pass(&mut rg, "first", &[], &[&img]);
    add_pass(&mut rg, "second", &[&img], &[]);
    let plan = compile(&mut rg);
    let chunks = vec![SlotAllocation { size: 256, offset: 0, memory: 1 }];
    let objects: HashMap<u32, u64> = HashMap::from([(0, 41)]);
    let tr = TransientResources::populate(&rg.virtual_resources, plan.placements, chunks, &objects);
    // Into the first pass the contents are discarded: a barrier on the image.
    let entry = tr.split_barriers(&plan.barriers[0].1);
    assert_eq!(entry.images.len(), 1);
    assert_eq!(entry.images[0].image, 41);
    assert_eq!(entry.images[0].aspect, ASPECT_COLOR);
    assert!(entry.images[0].discard && entry.global.is_none());
    // From a storage write to a storage read nothing of the layout changes.
    let fold = tr.split_barriers(&plan.barriers[1].1);
    assert!(fold.images.is_empty());
    assert_eq!(
        fold.global,
        Some((vec![AccessType::ComputeShaderWrite], vec![AccessType::ComputeShaderReadOther]))
    );
}

#[test]
fn aspects_and_slots_follow_formats_and_usages() {
    assert_eq!(aspect_for(37), ASPECT_COLOR);
    assert_eq!(aspect_for(FORMAT_D32_SFLOAT), ASPECT_DEPTH);
    assert_eq!(aspect_for(FORMAT_S8_UINT), ASPECT_STENCIL);
    assert_eq!(aspect_for(FORMAT_D24_UNORM_S8_UINT), ASPECT_DEPTH_STENCIL);
    assert_eq!(image_slots(0x4 | 0x8), (true, true));
    assert_eq!(image_slots(0x8), (true, false));
    assert_eq!(buffer_slots(0x20 | 0x10), (true, true));
    assert_eq!(buffer_slots(0), (false, false));
    assert_eq!(epoch_layout(&vec![AccessType::TransferRead]), 6);
    assert_eq!(epoch_layout(&vec![]), 0);
}

#[test]
fn a_transfer_pass_carries_its_copies() {
    let mut rg = RenderGraph::new();
    let dst = rg.create_resource(buffer(64, "dst"));
    let mut builder = TransferPassBuilder::new(&mut rg, "upload");
    let region = BufferCopy { src_offset: 0, dst_offset: 0, size: 64 };
    builder.copy_from_prechecked_raw(5, &dst, region).expect("declared");
    let pass = builder.build();
    assert_eq!(pass.copies.len(), 1);
    assert_eq!(pass.common.write.len(), 1);
    assert_eq!(pass.common.name, "upload");
}
