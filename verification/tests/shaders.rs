//! Shaders of passes, and the pipelines made of them.
use sunray::error::{ErrorSource, SrError, SrResult};
use sunray::render_graph::graph::{AnyRenderPass, RenderGraph};
use sunray::render_graph::pass_builder::{
    extract_spirv, ComputeQueueAffinity, ComputeRenderPassBuilder, ComputeShaders,
    PassCommonDataBuilder, RasterRenderPassBuilder, RasterShaders, RayTracingShaders,
    RaytracingRenderPassBuilder, RenderJob, ShaderSource, VertexBinding,
};
use sunray::render_graph::pipeline_cache::{
    compute_pipeline_key, graphics_pipeline_key, pipeline_cache_key, raytracing_pipeline_key,
    CachedPipeline, PipelineCache, PipelineHandle,
};
use sunray::shader_compiler::{
    check_compiler, compiled, shader_debug_wanted, slang_compiler_options, CompilerOptions,
    SlangFailure,
};

fn custom(e: &SrError) -> &str {
    match e.get_source() {
        ErrorSource::Custom(text) => text,
        other => panic!("another source: {other:?}"),
    }
}

fn failed<T>(r: SrResult<T>) -> SrError {
    match r {
        Ok(_) => panic!("it worked"),
        Err(e) => e,
    }
}

fn spirv(byte: u8) -> ShaderSource {
    ShaderSource::Spirv(vec![byte; 4])
}

fn entry(i: usize) -> (usize, String) {
    (i, "main".to_string())
}

#[test]
fn keys_tell_kinds_and_parts_apart() {
    let a: &[u8] = &[1, 2];
    let b: &[u8] = &[3];
    assert_eq!(compute_pipeline_key(a), pipeline_cache_key(0, &[a]));
    assert_ne!(pipeline_cache_key(0, &[a, b]), pipeline_cache_key(1, &[a, b]));
    // The cut between the parts counts.
    assert_ne!(pipeline_cache_key(0, &[&[1, 2, 3], &[]]), pipeline_cache_key(0, &[a, b]));
    assert_ne!(raytracing_pipeline_key(a, b, b, b), raytracing_pipeline_key(b, a, b, b));
    assert_ne!(graphics_pipeline_key(a, b, 37), graphics_pipeline_key(a, b, 43));
}

#[test]
fn a_pipeline_is_built_once() {
    let mut cache = PipelineCache::new();
    let first = cache.intern(5, || Ok(CachedPipeline::Compute(70))).expect("built");
    let again = cache.intern(5, || panic!("built twice")).expect("known");
    assert_eq!(first, PipelineHandle(0));
    assert_eq!(again, PipelineHandle(0));
    let other = cache.intern(6, || Ok(CachedPipeline::RayTracing(71, 72))).expect("built");
    assert_eq!(other, PipelineHandle(1));
    assert_eq!(cache.compute_pipeline(first).expect("compute"), 70);
    assert_eq!(cache.raytracing_pipeline(other).expect("rays"), (71, 72));
    assert!(cache.graphics_pipeline(first).is_err());
    assert!(cache.compute_pipeline(other).is_err());
    assert!(cache.raytracing_pipeline(PipelineHandle(9)).is_err());
    assert!(cache.get(PipelineHandle(9)).is_none());
    let e = failed(cache.intern(7, || Err(SrError::new_custom("no".to_string()))));
    assert_eq!(custom(&e), "no");
    assert_eq!(cache.entries.len(), 2);
}

#[test]
fn only_compiled_shaders_are_taken() {
    assert_eq!(extract_spirv(&spirv(3), "x").expect("compiled"), &vec![3, 3, 3, 3]);
    let e = failed(extract_spirv(&ShaderSource::Glsl("a\"b.glsl".to_string()), "pass x"));
    assert_eq!(custom(&e), "pass x only accepts ShaderSource::Spirv; got Glsl(\"a\\\"b.glsl\")");
    let e = failed(extract_spirv(&ShaderSource::Slang("c.slang".to_string()), "pass y"));
    assert_eq!(custom(&e), "pass y only accepts ShaderSource::Spirv; got Slang(\"c.slang\")");
}

#[test]
fn a_compute_pass_gets_its_pipeline() {
    let mut rg = RenderGraph::new();
    let common = PassCommonDataBuilder::new(&mut rg, "p").build();
    let builder = ComputeRenderPassBuilder {
        common: Some(common),
        shaders: Some(ComputeShaders::new(vec![spirv(1)], 0, "main".to_string())),
        queue_affinity: ComputeQueueAffinity::Universal,
    };
    let pass = builder
        .generate_render(&mut rg, 1, (2, 3, 1), 9, || Ok(CachedPipeline::Compute(5)))
        .expect("generated");
    assert_eq!(
        pass.common.render,
        Some(RenderJob::Dispatch { pipeline: PipelineHandle(0), groups: (2, 3, 1), push: 9 })
    );
    assert_eq!(pass.queue_affinity, ComputeQueueAffinity::Universal);
    assert_eq!(rg.pipeline_caches[1].entries.len(), 1);
    assert!(rg.pipeline_caches[0].entries.is_empty());
}

#[test]
fn what_a_compute_pass_lacks_is_named() {
    let mut rg = RenderGraph::new();
    let build = || Ok(CachedPipeline::Compute(5));
    let empty = ComputeRenderPassBuilder {
        common: None,
        shaders: None,
        queue_affinity: ComputeQueueAffinity::Inferred,
    };
    let e = failed(empty.generate_render(&mut rg, 0, (1, 1, 1), 0, build));
    assert_eq!(custom(&e), "ComputeRenderPassBuilder::generate_render: no shaders set");
    let out_of_range = ComputeRenderPassBuilder {
        common: None,
        shaders: Some(ComputeShaders::new(vec![spirv(1)], 2, "main".to_string())),
        queue_affinity: ComputeQueueAffinity::Inferred,
    };
    let e = failed(out_of_range.generate_render(&mut rg, 0, (1, 1, 1), 0, build));
    assert_eq!(
        custom(&e),
        "ComputeRenderPassBuilder::generate_render: entry_point index 2 (\"main\") out of range for 1 shader(s)"
    );
    let no_common = ComputeRenderPassBuilder {
        common: None,
        shaders: Some(ComputeShaders::new(vec![spirv(1)], 0, "main".to_string())),
        queue_affinity: ComputeQueueAffinity::Inferred,
    };
    let e = failed(no_common.generate_render(&mut rg, 0, (1, 1, 1), 0, build));
    assert_eq!(custom(&e), "ComputeRenderPassBuilder::generate_render: common not set");
}

#[test]
fn a_ray_tracing_pass_needs_all_its_stages() {
    let mut rg = RenderGraph::new();
    let shaders = |n: usize| {
        RayTracingShaders::new(
            (0..n).map(|i| spirv(i as u8)).collect(),
            entry(0),
            entry(1),
            entry(2),
            entry(3),
        )
    };
    let build = || Ok(CachedPipeline::RayTracing(5, 6));
    let unset = RaytracingRenderPassBuilder { common: None, shaders: None, trace_extent: None };
    let e = failed(unset.generate_render(&mut rg, 0, 0, build));
    assert_eq!(custom(&e), "RaytracingRenderPassBuilder::generate_render: no shaders set");
    let no_extent =
        RaytracingRenderPassBuilder { common: None, shaders: Some(shaders(4)), trace_extent: None };
    let e = failed(no_extent.generate_render(&mut rg, 0, 0, build));
    assert_eq!(custom(&e), "RaytracingRenderPassBuilder::generate_render: trace_extent not set");
    let short = RaytracingRenderPassBuilder {
        common: None,
        shaders: Some(shaders(3)),
        trace_extent: Some((1, 1, 1)),
    };
    let e = failed(short.generate_render(&mut rg, 0, 0, build));
    assert_eq!(
        custom(&e),
        "RaytracingRenderPassBuilder::generate_render: any_hit entry_point index 3 (\"main\") out of range for 3 shader(s)"
    );
    let common = PassCommonDataBuilder::new(&mut rg, "rays").build();
    let whole = RaytracingRenderPassBuilder {
        common: Some(common),
        shaders: Some(shaders(4)),
        trace_extent: Some((4, 5, 1)),
    };
    let made = whole.generate_render(&mut rg, 0, 3, build).expect("generated");
    assert_eq!(
        made.common.expect("common").render,
        Some(RenderJob::TraceRays { pipeline: PipelineHandle(0), extent: (4, 5, 1), push: 3 })
    );
}

#[test]
fn a_raster_pass_gets_its_pipeline() {
    let mut rg = RenderGraph::new();
    let shaders = RasterShaders::new(
        vec![spirv(1), spirv(2)],
        entry(0),
        entry(1),
        37,
        VertexBinding { binding: 0, stride: 20, input_rate: 0 },
        vec![],
    );
    let common = PassCommonDataBuilder::new(&mut rg, "raster").build();
    let builder = RasterRenderPassBuilder { common: Some(common), shaders: Some(shaders) };
    let made = builder
        .generate_render(&mut rg, 0, 4, || Ok(CachedPipeline::Graphics(8)))
        .expect("generated");
    assert_eq!(
        made.common.expect("common").render,
        Some(RenderJob::Draw { pipeline: PipelineHandle(0), push: 4 })
    );
    let unset = RasterRenderPassBuilder { common: None, shaders: None };
    let e = failed(unset.generate_render(&mut rg, 0, 4, || Ok(CachedPipeline::Graphics(8))));
    assert_eq!(custom(&e), "RasterRenderPassBuilder::generate_render: no shaders set");
}

#[test]
fn a_pass_that_copies_starts_without_copies() {
    let mut rg = RenderGraph::new();
    let pass = PassCommonDataBuilder::new(&mut rg, "copies").build_transfer();
    assert_eq!(pass.common.name, "copies");
    assert!(pass.copies.is_empty());
    assert!(matches!(AnyRenderPass::from(pass), AnyRenderPass::Transfer(_)));
}

#[test]
fn debug_information_is_all_that_differs() {
    let plain = slang_compiler_options(false);
    assert!(plain.maximal_optimization && !plain.row_major && plain.descriptor_heap);
    assert!(!plain.debug_information);
    assert_eq!(
        slang_compiler_options(true),
        CompilerOptions { debug_information: true, ..plain }
    );
}

#[test]
fn a_compiler_has_to_be_there_and_recent() {
    assert!(check_compiler(true, true).is_ok());
    let missing = failed(check_compiler(false, false));
    assert_eq!(
        custom(&missing),
        "Failed to create Slang GlobalSession (is the Slang runtime DLL on PATH?)"
    );
    let outdated = failed(check_compiler(true, false));
    assert!(custom(&outdated).starts_with("Slang does not know the `spvDescriptorHeapEXT`"));
    assert!(custom(&outdated).ends_with("(Feb 2026). Update the Slang runtime."));
}

#[test]
fn failures_to_compile_name_the_step() {
    let error = |failure| failed(compiled(Err(failure), "denoise", "main"));
    let text = |failure| custom(&error(failure)).to_string();
    assert_eq!(text(SlangFailure::Session), "Slang create_session returned null");
    assert_eq!(
        text(SlangFailure::LoadModule("gone".to_string())),
        "Slang load_module(\"denoise\") failed: gone"
    );
    assert_eq!(
        text(SlangFailure::EntryPoint),
        "entry point \"main\" not found in module \"denoise\""
    );
    assert_eq!(
        text(SlangFailure::Compose("x".to_string())),
        "Slang create_composite_component_type failed: x"
    );
    assert_eq!(text(SlangFailure::Link("y".to_string())), "Slang link failed: y");
    assert_eq!(
        text(SlangFailure::Code("z".to_string())),
        "Slang entry_point_code failed for \"denoise::main\": z"
    );
    assert_eq!(compiled(Ok(vec![1, 2]), "denoise", "main").expect("code"), vec![1, 2]);
}

#[test]
fn debug_information_is_spelled_out() {
    for on in ["1", "true", "TRUE"] {
        assert!(shader_debug_wanted(on));
    }
    for off in ["", "0", "True", "on", "1 ", "11", "tru"] {
        assert!(!shader_debug_wanted(off));
    }
}
