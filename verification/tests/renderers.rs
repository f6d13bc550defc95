//! The renderer around its frames.
use std::cell::RefCell;
use std::collections::HashMap;
use std::marker::PhantomData;

use ash::vk;
use vk_sync_fork::AccessType;

use sunray::error::{ErrorSource, SrError, SrResult};
use sunray::path_tracer::{PushData, ShaderCode, ShaderRole, DENOISE_PASSES};
use sunray::render_graph::alias::{AliasStrategy, MemoryLocation};
use sunray::render_graph::graph::{AnyRenderPass, RenderGraph};
use sunray::render_graph::memory_plan::MemoryRequirements;
use sunray::render_graph::pass_builder::RenderJob;
use sunray::render_graph::pipeline_cache::CachedPipeline;
use sunray::render_graph::resource::{
    AccelerationDesc, AccelerationStructure, BoundBuffer, BoundImage, BufferDesc,
    GraphResourceDesc, GraphResourceImportInfo, GraphResourceInfo, Handle, ImageDesc, RawBuffer,
};
use sunray::render_graph::submission::{PresentImage, STAGE_ALL_COMMANDS};
use sunray::renderer::{
    pad_if_empty, postprocess_image_desc, reservoir_buffer_desc, swapchain_output,
    temporal_image_desc, transpose, CameraMatrices, FrameOutput, Renderer, ReservoirSizes,
    TemporalBackings, STAGE_TRANSFER, WARMUP_FRAMES,
};
use sunray::scheduled::Scheduled;
use sunray::settings::{DiagnosticTool, Settings, Switches};

const NO_SWITCHES: Switches = Switches {
    validation_layer: None,
    gpuav: None,
    nsight: None,
    nvidia_aftermath: None,
    serialize_frames: None,
};

#[test]
fn switches_have_defaults() {
    let plain = Settings::from_switches(NO_SWITCHES, true);
    assert_eq!(
        plain,
        Settings {
            with_validation_layer: true,
            with_gpuav: false,
            diagnostics: DiagnosticTool::Off,
            serialize_frames: true,
        }
    );
    assert!(!Settings::from_switches(NO_SWITCHES, false).with_validation_layer);
    let both = Switches { nsight: Some(true), nvidia_aftermath: Some(true), ..NO_SWITCHES };
    assert_eq!(
        Settings::from_switches(both, true).diagnostics,
        DiagnosticTool::NvidiaNsightGraphics
    );
    let one = Switches { nvidia_aftermath: Some(true), gpuav: Some(true), ..NO_SWITCHES };
    let settings = Settings::from_switches(one, true);
    assert_eq!(settings.diagnostics, DiagnosticTool::NvidiaAftermath);
    assert!(settings.with_gpuav);
    let off = Switches { validation_layer: Some(false), serialize_frames: Some(false), ..NO_SWITCHES };
    let settings = Settings::from_switches(off, true);
    assert!(!settings.with_validation_layer && !settings.serialize_frames);
}

#[test]
fn what_is_due_comes_in_order() {
    let mut queue: Scheduled<&str> = Scheduled::new();
    queue.push(3, "c");
    queue.push(1, "a");
    queue.push(2, "b");
    assert_eq!(queue.take_due(2), vec!["a", "b"]);
    assert_eq!(queue.entries, vec![(3, "c")]);
    assert!(queue.take_due(2).is_empty());
    assert_eq!(queue.take_due(9), vec!["c"]);
}

#[test]
fn frames_in_order_stay_in_order() {
    let mut queue: Scheduled<&str> = Scheduled::new();
    for (frame, thing) in [(1, "a"), (2, "b"), (2, "c"), (4, "d")] {
        queue.push(frame, thing);
    }
    assert_eq!(queue.take_due(1), vec!["a"]);
    queue.push(4, "e");
    queue.push(7, "f");
    let frames: Vec<u64> = queue.entries.iter().map(|entry| entry.0).collect();
    assert_eq!(frames, vec![2, 2, 4, 4, 7]);
    assert_eq!(queue.take_due(4), vec!["b", "c", "d", "e"]);
    assert_eq!(queue.entries, vec![(7, "f")]);
}

#[test]
fn outputs_say_how_a_frame_ends() {
    let plan = FrameOutput::Present { acquire: 1, present: 2 }.plan();
    assert_eq!(plan.dst_final, AccessType::Present);
    assert_eq!(plan.extra_waits, vec![(1, 0, STAGE_TRANSFER)]);
    assert_eq!(plan.extra_signals, vec![(2, 0, STAGE_ALL_COMMANDS)]);
    let plan = FrameOutput::PresentOverlay { acquire: 1 }.plan();
    assert_eq!(plan.dst_final, AccessType::General);
    assert_eq!(plan.extra_waits, vec![(1, 0, STAGE_TRANSFER)]);
    assert!(plan.extra_signals.is_empty());
    let plan = FrameOutput::Offscreen.plan();
    assert_eq!(plan.dst_final, AccessType::General);
    assert!(plan.extra_waits.is_empty() && plan.extra_signals.is_empty());
    assert_eq!(STAGE_TRANSFER, vk::PipelineStageFlags2::TRANSFER.as_raw());
    assert_eq!(STAGE_ALL_COMMANDS, vk::PipelineStageFlags2::ALL_COMMANDS.as_raw());
    assert_eq!(swapchain_output(true, 1, 2), FrameOutput::PresentOverlay { acquire: 1 });
    assert_eq!(swapchain_output(false, 1, 2), FrameOutput::Present { acquire: 1, present: 2 });
}

#[test]
fn only_empty_lists_are_padded() {
    assert_eq!(pad_if_empty(vec![], 7), vec![7]);
    assert_eq!(pad_if_empty(vec![1, 2], 7), vec![1, 2]);
}

#[test]
fn descriptions_have_the_numbers_of_vulkan() {
    let image = temporal_image_desc("Accumulation", (4, 3, 1));
    assert_eq!(image.format, vk::Format::B10G11R11_UFLOAT_PACK32.as_raw());
    assert_eq!(
        image.usage,
        (vk::ImageUsageFlags::STORAGE | vk::ImageUsageFlags::SAMPLED).as_raw()
    );
    assert_eq!(image.location, MemoryLocation::GpuOnly);
    let buffer = reservoir_buffer_desc("r", 12, 32);
    assert_eq!(buffer.byte_size, 384);
    assert_eq!(
        buffer.usage,
        (vk::BufferUsageFlags::STORAGE_BUFFER
            | vk::BufferUsageFlags::SHADER_DEVICE_ADDRESS
            | vk::BufferUsageFlags::TRANSFER_DST)
            .as_raw()
    );
    let shown = postprocess_image_desc((4, 3, 1));
    assert_eq!(shown.format, vk::Format::R8G8B8A8_UNORM.as_raw());
    assert_eq!(
        shown.usage,
        (vk::ImageUsageFlags::STORAGE
            | vk::ImageUsageFlags::TRANSFER_DST
            | vk::ImageUsageFlags::TRANSFER_SRC)
            .as_raw()
    );
    assert_eq!(shown.name, "sunray (internal, pre-blit) postprocess result image");
    assert_eq!(WARMUP_FRAMES, 16);
}

const BACKINGS: TemporalBackings = TemporalBackings {
    accumulation: [10, 11],
    denoising: [20, 21],
    reservoir: [30, 31],
    reservoir_gi: [40, 41],
};

fn shaders() -> ShaderCode {
    ShaderCode {
        ray_gen_ris: vec![1],
        ray_gen_final: vec![2],
        ray_miss: vec![3],
        closest_hit: vec![4],
        any_hit: vec![5],
        temporal_accumulation: vec![6],
        denoise: vec![7],
        postprocess: vec![8],
    }
}

fn renderer(serialize: bool, with_surface: bool) -> Renderer<&'static str, &'static str> {
    let switches = Switches { serialize_frames: Some(serialize), ..NO_SWITCHES };
    Renderer::new(
        (32, 17),
        37,
        Settings::from_switches(switches, false),
        shaders(),
        ReservoirSizes { reservoir: 48, reservoir_gi: 64 },
        BACKINGS,
        with_surface,
    )
    .expect("a renderer")
}

#[test]
fn a_renderer_starts_before_its_first_frame() {
    let r = renderer(true, false);
    assert_eq!(r.image_extent, (32, 17, 1));
    assert_eq!((r.relative_frame_count, r.absolute_frame_count, r.completed_frame), (0, 0, 0));
    assert_eq!(r.upcoming_frame(), 1);
    assert_eq!(r.temporal.accumulation.desc.name, "Accumulation");
    assert_eq!(r.temporal.denoising.desc.name, "Denoise");
    assert_eq!(r.temporal.reservoir.desc.byte_size, 32 * 17 * 48);
    assert_eq!(r.temporal.reservoir_gi.desc.byte_size, 32 * 17 * 64);
    assert_eq!(r.init_temporal_images_to_general(), vec![10, 11, 20, 21]);
    assert!(r.swapchain.is_none());
    let graph = &r.render_graph;
    assert_eq!((graph.next_pass_id, graph.next_resource_id), (0, 0));
    assert_eq!(graph.temporal_resources.len(), 4);
    assert!(graph.temporal_resources.iter().all(|t| t.frame_of_creation == 0));
    assert!(graph.passes.is_empty() && graph.virtual_resources.is_empty());
    assert!(graph.output_resources.is_empty() && graph.prologue_copies.is_empty());
    assert!(graph.pipeline_caches.iter().all(|c| c.entries.is_empty() && c.by_key.is_empty()));
    assert!(r.assets.scene_groups.is_empty());
}

#[test]
fn resizing_starts_over() {
    let mut r = renderer(true, false);
    r.advance_frame();
    let others = TemporalBackings { accumulation: [50, 51], ..BACKINGS };
    assert!(!r.resize_internal_images((32, 17), others).expect("no change"));
    assert_eq!(r.relative_frame_count, 1);
    assert_eq!(r.init_temporal_images_to_general(), vec![10, 11, 20, 21]);
    assert!(r.resize_internal_images((8, 8), others).expect("a change"));
    assert_eq!(r.image_extent, (8, 8, 1));
    assert_eq!((r.relative_frame_count, r.absolute_frame_count), (0, 1));
    assert_eq!(r.init_temporal_images_to_general(), vec![50, 51, 20, 21]);
    assert_eq!(r.temporal.reservoir.desc.byte_size, 64 * 48);
}

#[test]
fn callbacks_wait_for_their_frames() {
    let mut r = renderer(true, false);
    r.add_start_of_frame_callback("start");
    r.add_end_of_frame_callback("end");
    r.unload_mesh("mesh");
    assert!(r.run_start_of_frame_callbacks(0).is_empty());
    assert_eq!(r.run_start_of_frame_callbacks(1), vec!["start"]);
    assert!(r.run_due_end_of_frame_callbacks().is_empty());
    r.completed_frame = 1;
    assert_eq!(r.run_due_end_of_frame_callbacks(), vec!["end"]);
    r.completed_frame = 2;
    assert!(r.run_due_end_of_frame_callbacks().is_empty());
    r.completed_frame = 3;
    assert_eq!(r.run_due_end_of_frame_callbacks(), vec!["mesh"]);
}

#[test]
fn the_last_frame_stands_in_for_the_history() {
    let mut m = [0u32; 16];
    for i in 0..16 {
        m[i] = i as u32;
    }
    let t = transpose(m);
    assert_eq!(t, [0, 4, 8, 12, 1, 5, 9, 13, 2, 6, 10, 14, 3, 7, 11, 15]);
    assert_eq!(transpose(t), m);
    let mut r = renderer(true, false);
    let camera = CameraMatrices {
        view_inverse: m,
        proj_inverse: [1; 16],
        view_proj: m,
        prev_view_proj: [9; 16],
    };
    let first = r.frame_matrices(camera);
    assert_eq!(first.view_inverse, t);
    assert_eq!(first.proj_inverse, [1; 16]);
    assert_eq!(first.view_proj, t);
    assert_eq!(first.prev_view_proj, [0; 16]);
    let second = r.frame_matrices(CameraMatrices { view_proj: [2; 16], ..camera });
    assert_eq!(second.prev_view_proj, t);
}

#[test]
fn a_swapchain_is_counted() {
    let mut r = renderer(true, true);
    assert_eq!(r.next_swapchain_slot().expect("a surface"), (0, 0));
    r.note_rendered_frame(0, 5);
    assert_eq!(r.next_swapchain_slot().expect("a surface"), (1, 0));
    r.note_rendered_frame(1, 6);
    assert_eq!(r.next_swapchain_slot().expect("a surface"), (0, 5));
    let mut headless = renderer(true, false);
    headless.note_rendered_frame(0, 5);
    let e = headless.next_swapchain_slot().expect_err("no surface");
    match e.get_source() {
        ErrorSource::Custom(text) => {
            assert_eq!(text, "render_to_swapchain: renderer was built without a surface")
        }
        other => panic!("another source: {other:?}"),
    }
}

fn buffer_desc(name: &'static str) -> BufferDesc {
    BufferDesc {
        byte_size: 256,
        alignment: 16,
        memory_location: MemoryLocation::GpuOnly,
        usage: 0x20,
        name,
    }
}

fn import_arena(rg: &mut RenderGraph, token: u64) -> Handle<RawBuffer> {
    rg.import(
        buffer_desc("arena"),
        GraphResourceImportInfo::Buffer {
            resource: BoundBuffer { token, byte_size: 256 },
            access_types: vec![],
        },
    )
}

fn import_scene(rg: &mut RenderGraph) -> Handle<AccelerationStructure> {
    rg.import(
        AccelerationDesc { byte_size: 1024 },
        GraphResourceImportInfo::RayTracingAcceleration { resource: 90, access_types: vec![] },
    )
}

fn shown_desc() -> ImageDesc {
    postprocess_image_desc((32, 17, 1))
}

fn shown() -> GraphResourceImportInfo {
    GraphResourceImportInfo::Image {
        resource: BoundImage { token: 60, extent: (32, 17, 1), format: 37 },
        access_types: vec![],
    }
}

fn pipeline_for(role: ShaderRole) -> SrResult<CachedPipeline> {
    match role {
        ShaderRole::RaytracingRis => Ok(CachedPipeline::RayTracing(1, 2)),
        ShaderRole::RaytracingFinal => Ok(CachedPipeline::RayTracing(3, 4)),
        ShaderRole::TemporalAccumulation => Ok(CachedPipeline::Compute(5)),
        ShaderRole::Denoise => Ok(CachedPipeline::Compute(6)),
        ShaderRole::Postprocess => Ok(CachedPipeline::Compute(7)),
    }
}

#[test]
fn a_frame_is_declared_pass_by_pass() {
    let mut r = renderer(true, false);
    assert_eq!(r.advance_frame(), 0);
    let arenas = [import_arena(&mut r.render_graph, 80), import_arena(&mut r.render_graph, 81)];
    let tlas = import_scene(&mut r.render_graph);
    let asked = RefCell::new(Vec::new());
    let build = |role: ShaderRole| {
        asked.borrow_mut().push(role);
        pipeline_for(role)
    };
    let declared = r
        .build_unified_graph(0, shown_desc(), shown(), arenas, tlas, &build)
        .expect("declared");
    assert_eq!(
        *asked.borrow(),
        vec![
            ShaderRole::RaytracingRis,
            ShaderRole::RaytracingFinal,
            ShaderRole::TemporalAccumulation,
            ShaderRole::Denoise,
            ShaderRole::Postprocess,
        ]
    );
    assert_eq!(declared.source.id, 12);
    assert_eq!(DENOISE_PASSES, 8);
    assert_eq!(r.render_graph.passes.len(), 12);
    assert_eq!(r.render_graph.virtual_resources.len(), 17);
    let push = &declared.pushes;
    assert_eq!(push.len(), 12);
    assert_eq!(push[0], push[1]);
    assert_eq!(
        push[0],
        PushData::Raytracing {
            raw_color: 3,
            depth: 4,
            normal: 5,
            diffuse: 6,
            motion: 7,
            frame_count: 0,
            use_srgb: false,
        }
    );
    assert_eq!(
        push[2],
        PushData::TemporalAccumulation {
            raw_color: 3,
            motion: 7,
            history: 9,
            accum_output: 8,
            frame_count: 0,
            width: 32,
            height: 17,
        }
    );
    let filters: Vec<(u32, u32, i32)> = push[3..11]
        .iter()
        .map(|p| match p {
            PushData::Denoise { temporal_result, spatial_output, step_width, .. } => {
                (*temporal_result, *spatial_output, *step_width)
            }
            other => panic!("{other:?}"),
        })
        .collect();
    assert_eq!(
        filters,
        vec![
            (8, 10, 1),
            (10, 11, 2),
            (11, 10, 4),
            (10, 11, 8),
            (11, 10, 16),
            (10, 11, 32),
            (11, 10, 64),
            (10, 11, 128),
        ]
    );
    assert_eq!(push[11], PushData::Postprocess { input: 11, output: 12 });
    match &r.render_graph.passes[0] {
        AnyRenderPass::Rt(pass) => assert!(matches!(
            pass.common.render,
            Some(RenderJob::TraceRays { extent: (32, 17, 1), push: 0, .. })
        )),
        other => panic!("{}", other.common().name),
    }
    // Sixteen pixels to a group, rounded up.
    match &r.render_graph.passes[3] {
        AnyRenderPass::Compute(pass) => assert!(matches!(
            pass.common.render,
            Some(RenderJob::Dispatch { groups: (2, 2, 1), push: 3, .. })
        )),
        other => panic!("{}", other.common().name),
    }
}

fn pipelines_of(rg: &RenderGraph, frame: usize) -> Vec<CachedPipeline> {
    let cache = &rg.pipeline_caches[RenderGraph::current_slot(frame)];
    rg.passes
        .iter()
        .map(|pass| match &pass.common().render {
            Some(RenderJob::TraceRays { pipeline, .. })
            | Some(RenderJob::Dispatch { pipeline, .. }) => {
                *cache.get(*pipeline).expect("a pipeline")
            }
            _ => panic!("{} runs no pipeline", pass.common().name),
        })
        .collect()
}

#[test]
fn each_pass_runs_its_own_pipeline() {
    let mut r = renderer(true, false);
    let mut expected = vec![
        CachedPipeline::RayTracing(1, 2),
        CachedPipeline::RayTracing(3, 4),
        CachedPipeline::Compute(5),
    ];
    expected.extend([CachedPipeline::Compute(6); 8]);
    expected.push(CachedPipeline::Compute(7));
    for frame in 1..5 {
        let frame_count = r.advance_frame();
        let arenas =
            [import_arena(&mut r.render_graph, 80), import_arena(&mut r.render_graph, 81)];
        let tlas = import_scene(&mut r.render_graph);
        // Each slot builds its pipelines once.
        let build = |role: ShaderRole| {
            if frame <= 2 {
                pipeline_for(role)
            } else {
                Err(SrError::new_custom("built again".to_string()))
            }
        };
        let declared = r
            .build_unified_graph(frame_count, shown_desc(), shown(), arenas, tlas, &build)
            .expect("declared");
        assert_eq!(pipelines_of(&r.render_graph, frame), expected);
        let slot = RenderGraph::current_slot(frame);
        assert_eq!(r.render_graph.pipeline_caches[slot].entries.len(), 5);
        r.finish_frame(&declared.source, FrameOutput::Offscreen, 99, "release");
    }
}

#[test]
fn passes_with_the_same_shaders_share_a_pipeline() {
    let mut r = renderer(true, false);
    r.shaders.postprocess = r.shaders.denoise.clone();
    r.shaders.ray_gen_final = r.shaders.ray_gen_ris.clone();
    r.advance_frame();
    let arenas = [import_arena(&mut r.render_graph, 80), import_arena(&mut r.render_graph, 81)];
    let tlas = import_scene(&mut r.render_graph);
    r.build_unified_graph(0, shown_desc(), shown(), arenas, tlas, &pipeline_for).expect("declared");
    let run = pipelines_of(&r.render_graph, 1);
    assert_eq!(run[0], CachedPipeline::RayTracing(1, 2));
    assert_eq!(run[1], run[0]);
    assert_eq!(run[11], CachedPipeline::Compute(6));
    assert_eq!(r.render_graph.pipeline_caches[1].entries.len(), 3);
}

#[test]
fn history_is_what_the_last_frame_wrote() {
    let mut r = renderer(true, false);
    let mut last_written = None;
    for _ in 0..3 {
        let frame_count = r.advance_frame();
        let arenas =
            [import_arena(&mut r.render_graph, 80), import_arena(&mut r.render_graph, 81)];
        let tlas = import_scene(&mut r.render_graph);
        let declared = r
            .build_unified_graph(frame_count, shown_desc(), shown(), arenas, tlas, &pipeline_for)
            .expect("declared");
        match declared.pushes[2] {
            PushData::TemporalAccumulation { history, accum_output, .. } => {
                if let Some(written) = last_written {
                    assert_eq!(history, written);
                }
                assert_ne!(history, accum_output);
                last_written = Some(accum_output);
            }
            other => panic!("{other:?}"),
        }
        r.finish_frame(&declared.source, FrameOutput::Offscreen, 99, "release");
    }
}

#[test]
fn a_pipeline_that_fails_is_named() {
    let mut r = renderer(true, false);
    r.advance_frame();
    let arenas = [import_arena(&mut r.render_graph, 80), import_arena(&mut r.render_graph, 81)];
    let tlas = import_scene(&mut r.render_graph);
    let build = |role: ShaderRole| match role {
        ShaderRole::Denoise => Err(SrError::new_custom("no memory".to_string())),
        other => pipeline_for(other),
    };
    let e = match r.build_unified_graph(0, shown_desc(), shown(), arenas, tlas, &build) {
        Ok(_) => panic!("it worked"),
        Err(e) => e,
    };
    match e.get_source() {
        ErrorSource::Custom(text) => {
            assert!(text.contains("denoise") && text.contains("no memory"), "{text}")
        }
        other => panic!("another source: {other:?}"),
    }
    // The passes before it stand, with their pipelines.
    assert_eq!(r.render_graph.passes.len(), 3);
    assert_eq!(r.render_graph.next_pass_id, 4);
    assert_eq!(r.render_graph.pipeline_caches[1].entries.len(), 3);
    assert_eq!(pipelines_of(&r.render_graph, 1)[2], CachedPipeline::Compute(5));
}

fn requirements(rg: &RenderGraph) -> HashMap<u32, MemoryRequirements> {
    rg.virtual_resources
        .iter()
        .enumerate()
        .filter(|(_, info)| matches!(info, GraphResourceInfo::Created(GraphResourceDesc::Image(_))))
        .map(|(id, _)| {
            (id as u32, MemoryRequirements { size: 4096, alignment: 256, memory_type_bits: 1 })
        })
        .collect()
}

#[test]
fn a_frame_is_compiled_and_finished() {
    let mut r = renderer(false, true);
    let frame_count = r.advance_frame();
    let arenas = [import_arena(&mut r.render_graph, 80), import_arena(&mut r.render_graph, 81)];
    let tlas = import_scene(&mut r.render_graph);
    let declared = r
        .build_unified_graph(frame_count, shown_desc(), shown(), arenas, tlas, &pipeline_for)
        .expect("declared");
    assert!(r.render_graph.output_resources.contains(&declared.source.id));
    let needs = requirements(&r.render_graph);
    let plan = r.render_graph.compile(AliasStrategy::Slot, &needs, 1).expect("compiled");
    assert!(!plan.barriers.is_empty());
    // Every pass is of use, behind the pass that seeds the imports.
    assert_eq!(r.render_graph.passes.len(), 13);
    let last = r.render_graph.passes.last().expect("a pass").common();
    assert_eq!(last.name, "postprocess");
    assert_eq!(last.write[0].id, declared.source.id);
    let output = FrameOutput::Present { acquire: 70, present: 71 };
    let done = r.finish_frame(&declared.source, output, 99, "release");
    assert_eq!(done.frame, 1);
    assert_eq!(done.before_copy.len(), 2);
    assert_eq!(done.before_copy[0].image, PresentImage::Source);
    assert_eq!(done.before_copy[0].prev, vec![AccessType::ComputeShaderWrite]);
    assert_eq!(done.before_copy[0].next, vec![AccessType::TransferRead]);
    assert!(done.before_copy[1].discard);
    assert_eq!(done.after_copy[0].next, vec![AccessType::Present]);
    assert_eq!(done.after_copy[1].next, vec![AccessType::ComputeShaderWrite]);
    assert_eq!(
        done.submission.waits,
        vec![(99, 0, STAGE_ALL_COMMANDS), (70, 0, STAGE_TRANSFER)]
    );
    assert_eq!(
        done.submission.signals,
        vec![(99, 1, STAGE_ALL_COMMANDS), (71, 0, STAGE_ALL_COMMANDS)]
    );
    assert_eq!(done.wait, None);
    assert!(r.render_graph.passes.is_empty());
    assert!(r.render_graph.virtual_resources.is_empty());
    assert!(r.render_graph.resource_end_states.contains_key(&declared.source.id));
    assert_eq!(r.end_of_frame_callbacks.entries, vec![(1, "release")]);
    r.completed_frame = 1;
    assert_eq!(r.run_due_end_of_frame_callbacks(), vec!["release"]);
}

#[test]
fn serialized_frames_are_waited_for() {
    let mut r = renderer(true, false);
    r.advance_frame();
    r.advance_frame();
    let image = r.render_graph.create_resource(shown_desc());
    let source = Handle { id: image.id, desc: image.desc, marker: PhantomData };
    let done = r.finish_frame(&source, FrameOutput::Offscreen, 99, "release");
    assert_eq!(done.wait, Some(2));
    assert_eq!(done.submission.waits, vec![(99, 1, STAGE_ALL_COMMANDS)]);
}

#[test]
fn builds_are_noted_once_their_frame_is_done() {
    let mut r = renderer(true, false);
    r.advance_frame();
    r.add_end_of_frame_callback("next frame");
    r.mark_builds(vec!["mesh", "scene"]);
    r.mark_builds(vec![]);
    assert_eq!(
        r.end_of_frame_callbacks.entries,
        vec![(2, "next frame"), (1, "mesh"), (1, "scene")]
    );
    r.completed_frame = 1;
    assert_eq!(r.run_due_end_of_frame_callbacks(), vec!["mesh", "scene"]);
}

#[test]
fn rays_know_the_count_and_the_format() {
    let mut r = renderer(true, false);
    r.image_format = vk::Format::R8G8B8A8_SRGB.as_raw();
    r.advance_frame();
    let frame_count = r.advance_frame();
    let arenas = [import_arena(&mut r.render_graph, 80), import_arena(&mut r.render_graph, 81)];
    let tlas = import_scene(&mut r.render_graph);
    let declared = r
        .build_unified_graph(frame_count, shown_desc(), shown(), arenas, tlas, &pipeline_for)
        .expect("declared");
    assert!(matches!(
        declared.pushes[0],
        PushData::Raytracing { frame_count: 1, use_srgb: true, .. }
    ));
    assert_eq!(declared.pushes[0], declared.pushes[1]);
}
