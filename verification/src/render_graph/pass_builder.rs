//! Declaring passes: what they touch, which shaders they run, and how their work is
//! to be recorded.

use std::collections::HashMap;

use vk_sync_fork::AccessType;
use vstd::prelude::*;

use crate::error::{ErrorSource, GraphError, SrError, SrResult};
use crate::render_graph::access::{
    access_name, access_text, is_write_access, opens_write_epoch, starts_write_epoch, writes,
    PassResourceAccessSyncType, PassResourceAccessType, ResourceRef,
};
use crate::render_graph::graph::RenderGraph;
use crate::render_graph::pipeline_cache::{
    compute_key, compute_pipeline_key, graphics_key, graphics_pipeline_key, raytracing_key,
    raytracing_pipeline_key, CachedPipeline, PipelineHandle,
};
use crate::render_graph::resource::{BufferDesc, Handle, RawBuffer, Resource};
use crate::text::{decimal, push_decimal, quoted, quoted_text};

verus! {

/// How a shader names a binding.
#[derive(Clone, Copy, Debug, PartialEq, Eq, Hash)]
pub enum BindingIntent {
    Single { name: &'static str },
    ArrayElement { name: &'static str, array_index: u32 },
}

/// What is bound: a resource of the graph, or memory by its address.
#[derive(Clone, Copy, Debug)]
pub enum BindingElement {
    RgResource { resource: u32 },
    DeviceAddress { resource: u64 },
}

/// The stages of a ray-tracing pipeline.
#[derive(Copy, Clone, Hash, Eq, PartialEq, Debug, Structural)]
pub enum RayTracingPipelineStage {
    RayGen,
    RayMiss,
    RayClosestHit,
}

/// The stages of a raster pipeline.
#[derive(Copy, Clone, Hash, Eq, PartialEq, Debug, Structural)]
pub enum RasterPipelineStage {
    Vertex,
    Pixel,
}

/// Descriptions of a shader.
pub trait ShaderDesc {

}

/// A shader of a ray-tracing pass, and what is bound to it.
#[derive(Debug)]
pub struct RayTracingShaderDesc {
    pub descriptor_operations: HashMap<BindingIntent, BindingElement>,
    pub shader: ShaderSource,
}

/// A shader of a raster pass, and what is bound to it.
#[derive(Debug)]
pub struct RasterShaderDesc {
    pub descriptor_operations: HashMap<BindingIntent, BindingElement>,
    pub shader: ShaderSource,
    pub pipeline_stage: RasterPipelineStage,
}

/// A shader of a compute pass, and what is bound to it.
#[derive(Debug)]
pub struct ComputeShaderDesc {
    pub descriptor_operations: HashMap<BindingIntent, BindingElement>,
    pub shader: ShaderSource,
}

/// Where a shader comes from: a file to compile, or compiled code.
#[derive(Clone, Debug)]
pub enum ShaderSource {
    Glsl(String),
    Slang(String),
    /// Compiled SPIR-V, consumed verbatim.
    Spirv(Vec<u8>),
}

/// What a pass records once its barriers are issued. Push data and free recordings
/// are found by a token.
#[derive(Clone, Copy, Debug, PartialEq, Eq)]
pub enum RenderJob {
    /// Traces rays over an extent.
    TraceRays { pipeline: PipelineHandle, extent: (u32, u32, u32), push: u64 },
    /// Binds a graphics pipeline.
    Draw { pipeline: PipelineHandle, push: u64 },
    /// Runs a grid of compute workgroups.
    Dispatch { pipeline: PipelineHandle, groups: (u32, u32, u32), push: u64 },
    /// Builds an acceleration structure.
    BuildAccelerationStructure { job: u64, scratch: u64 },
    /// A recording of the caller's own.
    Custom(u64),
}

/// What every pass has.
#[derive(Debug)]
pub struct PassCommonData {
    pub read: Vec<ResourceRef>,
    pub write: Vec<ResourceRef>,
    pub name: String,
    pub id: u32,
    /// What to record. `None` means nothing: a pass kept only for what it declares.
    pub render: Option<RenderJob>,
    /// Everything this pass writes is a result of the frame.
    pub output: bool,
}

/// Assembles a [`PassCommonData`].
pub struct PassCommonDataBuilder {
    pub pass_common_data: PassCommonData,
}

/// A read as the builder declares it.
pub open spec fn read_ref(id: u32, access_type: AccessType) -> ResourceRef {
    ResourceRef {
        id,
        access: PassResourceAccessType {
            access_type,
            sync_type: PassResourceAccessSyncType::NeverSync,
        },
    }
}

/// A write as the builder declares it.
pub open spec fn write_ref(id: u32, access_type: AccessType) -> ResourceRef {
    ResourceRef {
        id,
        access: PassResourceAccessType {
            access_type,
            sync_type: PassResourceAccessSyncType::AlwaysSync,
        },
    }
}

impl PassCommonData {
    /// The same pass but for the reads.
    pub open spec fn same_but_read(self, other: Self) -> bool {
        self == (PassCommonData { read: self.read, ..other })
    }

    /// The same pass but for the writes.
    pub open spec fn same_but_write(self, other: Self) -> bool {
        self == (PassCommonData { write: self.write, ..other })
    }

    /// Declares a read.
    fn push_read(&mut self, id: u32, access_type: AccessType)
        ensures
            final(self).read@ == old(self).read@.push(read_ref(id, access_type)),
            final(self).same_but_read(*old(self)),
    {
        self.read.push(
            ResourceRef {
                id,
                access: PassResourceAccessType {
                    access_type,
                    sync_type: PassResourceAccessSyncType::NeverSync,
                },
            },
        );
    }

    /// Declares a write.
    fn push_write(&mut self, id: u32, access_type: AccessType)
        ensures
            final(self).write@ == old(self).write@.push(write_ref(id, access_type)),
            final(self).same_but_write(*old(self)),
    {
        self.write.push(
            ResourceRef {
                id,
                access: PassResourceAccessType {
                    access_type,
                    sync_type: PassResourceAccessSyncType::AlwaysSync,
                },
            },
        );
    }
}

impl PassCommonDataBuilder {
    /// A pass that touches nothing yet, under the graph's next pass id.
    pub fn new(rg: &mut RenderGraph, name: &str) -> (builder: Self)
        requires
            old(rg).next_pass_id < u32::MAX,
        ensures
            *final(rg) == (RenderGraph {
                next_pass_id: (old(rg).next_pass_id + 1) as u32,
                ..*old(rg)
            }),
            builder.pass_common_data.id == old(rg).next_pass_id,
            builder.pass_common_data.name@ == name@,
            builder.pass_common_data.read@.len() == 0,
            builder.pass_common_data.write@.len() == 0,
            builder.pass_common_data.render is None,
            !builder.pass_common_data.output,
    {
        let id: u32 = rg.next_pass_id();
        PassCommonDataBuilder {
            pass_common_data: PassCommonData {
                read: Vec::new(),
                write: Vec::new(),
                name: name.to_owned(),
                id,
                render: None,
                output: false,
            },
        }
    }

    /// Sets what the pass records. Replaces what was set before.
    pub fn render(&mut self, job: RenderJob)
        ensures
            final(self).pass_common_data == (PassCommonData {
                render: Some(job),
                ..old(self).pass_common_data
            }),
    {
        self.pass_common_data.render = Some(job);
    }

    /// Declares everything this pass writes a result of the frame.
    pub fn mark_output(&mut self)
        ensures
            final(self).pass_common_data == (PassCommonData {
                output: true,
                ..old(self).pass_common_data
            }),
    {
        self.pass_common_data.output = true;
    }

    /// The declared pass.
    pub fn build(self) -> (common: PassCommonData)
        ensures
            common == self.pass_common_data,
    {
        self.pass_common_data
    }

    /// The finished pass as one that copies. It has no copies yet.
    pub fn build_transfer(self) -> (pass: TransferPass)
        ensures
            pass.common == self.pass_common_data,
            pass.copies@.len() == 0,
    {
        TransferPass { common: self.pass_common_data, copies: Vec::new() }
    }

    /// The declared pass as one that records nothing.
    pub fn build_internal(self) -> (pass: InternalPass)
        ensures
            pass.common == self.pass_common_data,
    {
        InternalPass { common: self.pass_common_data }
    }

    /// Declares a read. A writing access is refused, and the pass stays as it was.
    pub fn read<Res: Resource>(
        &mut self,
        resource: &Handle<Res>,
        access_type: AccessType,
    ) -> (r: SrResult<()>)
        ensures
            !writes(access_type) ==> r is Ok && final(self).pass_common_data.read@ == old(
                self,
            ).pass_common_data.read@.push(read_ref(resource.id, access_type))
                && final(self).pass_common_data.same_but_read(old(self).pass_common_data),
            writes(access_type) ==> *final(self) == *old(self) && match r {
                Ok(_) => false,
                Err(e) => e.is_graph_error(
                    GraphError::IncorrectRenderAccessFlags,
                    "asked to read with such access: "@ + access_name(access_type),
                ),
            },
    {
        if !is_write_access(access_type) {
            self.pass_common_data.push_read(resource.id, access_type);
            Ok(())
        } else {
            Err(refused_access("asked to read with such access: ", access_type))
        }
    }

    /// Declares a write. A reading access is refused, and the pass stays as it was.
    pub fn write<Res: Resource>(
        &mut self,
        resource: &Handle<Res>,
        access_type: AccessType,
    ) -> (r: SrResult<()>)
        ensures
            writes(access_type) ==> r is Ok && final(self).pass_common_data.write@ == old(
                self,
            ).pass_common_data.write@.push(write_ref(resource.id, access_type))
                && final(self).pass_common_data.same_but_write(old(self).pass_common_data),
            !writes(access_type) ==> *final(self) == *old(self) && match r {
                Ok(_) => false,
                Err(e) => e.is_graph_error(
                    GraphError::IncorrectRenderAccessFlags,
                    "asked to write with such access: "@ + access_name(access_type),
                ),
            },
    {
        if is_write_access(access_type) {
            self.pass_common_data.push_write(resource.id, access_type);
            Ok(())
        } else {
            Err(refused_access("asked to write with such access: ", access_type))
        }
    }

    /// Declares the access an import carries in from the frame before: a write, or
    /// `Nothing`, among the writes, so that the first consumer is ordered after it; a
    /// read among the reads.
    pub fn declare_previous_imports(&mut self, id: u32, access_type: AccessType)
        ensures
            opens_write_epoch(access_type) ==> final(self).pass_common_data.write@ == old(
                self,
            ).pass_common_data.write@.push(write_ref(id, access_type))
                && final(self).pass_common_data.same_but_write(old(self).pass_common_data),
            !opens_write_epoch(access_type) ==> final(self).pass_common_data.read@ == old(
                self,
            ).pass_common_data.read@.push(read_ref(id, access_type))
                && final(self).pass_common_data.same_but_read(old(self).pass_common_data),
    {
        if starts_write_epoch(access_type) {
            self.pass_common_data.push_write(id, access_type);
        } else {
            self.pass_common_data.push_read(id, access_type);
        }
    }
}

/// The error of a declaration with an access of the wrong kind.
fn refused_access(asked: &str, access_type: AccessType) -> (e: SrError)
    ensures
        e.is_graph_error(
            GraphError::IncorrectRenderAccessFlags,
            asked@ + access_name(access_type),
        ),
{
    let mut text = asked.to_owned();
    let name = access_text(access_type);
    text.append(name.as_str());
    SrError::new(ErrorSource::RenderGraph(GraphError::IncorrectRenderAccessFlags), text)
}

// ---------------------------------------------------------------------------
// The kinds of passes
// ---------------------------------------------------------------------------

/// Where a compute pass would rather run.
#[derive(Clone, Copy, Debug, PartialEq, Eq, Structural)]
pub enum ComputeQueueAffinity {
    AsyncCompute,
    Universal,
    Inferred,
}

/// A pass that traces rays.
#[derive(Debug)]
pub struct RaytracingRenderPass {
    pub common: PassCommonData,
    pub shaders: Option<RayTracingShaders>,
    pub trace_extent: (u32, u32, u32),
}

/// A pass that rasterizes.
#[derive(Debug)]
pub struct RasterRenderPass {
    pub common: PassCommonData,
    pub shaders: Option<RasterShaders>,
}

/// A pass that computes.
#[derive(Debug)]
pub struct ComputeRenderPass {
    pub common: PassCommonData,
    pub shaders: Option<ComputeShaders>,
    pub queue_affinity: ComputeQueueAffinity,
}

/// A pass that copies between buffers. It carries its copies, so that whoever records
/// it may choose the queue.
#[derive(Debug)]
pub struct TransferPass {
    pub common: PassCommonData,
    pub copies: Vec<(CopyEnd, CopyEnd, BufferCopy)>,
}

/// A pass of the graph's own, which only declares accesses.
#[derive(Debug)]
pub struct InternalPass {
    pub common: PassCommonData,
}

/// One side of a copy: a buffer of the graph, or one that it does not track, by its
/// token.
#[derive(Clone, Copy, Debug, PartialEq, Eq, Structural)]
pub enum CopyEnd {
    Handle(u32),
    Raw(u64),
}

/// A copy of some bytes.
#[derive(Clone, Copy, Debug, PartialEq, Eq, Structural)]
pub struct BufferCopy {
    pub src_offset: u64,
    pub dst_offset: u64,
    pub size: u64,
}

/// What is said of a copy that leaves its buffer.
pub open spec fn out_of_bounds(
    role: Seq<char>,
    name: Seq<char>,
    byte_size: u64,
    offset: u64,
    size: u64,
) -> Seq<char> {
    "copy "@ + role + " \""@ + name + "\" holds "@ + decimal(byte_size as nat) + " bytes; asked for "@
        + decimal(size as nat) + " at offset "@ + decimal(offset as nat)
}

/// Do the bytes of a copy lie inside a buffer of `byte_size`?
pub fn check_copy_bounds(
    role: &str,
    name: &str,
    byte_size: u64,
    offset: u64,
    region: &BufferCopy,
) -> (r: SrResult<()>)
    ensures
        match r {
            Ok(_) => offset + region.size <= byte_size,
            Err(e) => offset + region.size > byte_size && e.is_custom(
                out_of_bounds(role@, name@, byte_size, offset, region.size),
            ),
        },
{
    if region.size <= byte_size && offset <= byte_size - region.size {
        return Ok(());
    }
    let mut text = String::from_str("copy ");
    text.append(role);
    text.append(" \"");
    text.append(name);
    text.append("\" holds ");
    push_decimal(&mut text, byte_size);
    text.append(" bytes; asked for ");
    push_decimal(&mut text, region.size);
    text.append(" at offset ");
    push_decimal(&mut text, offset);
    proof {
        assert(text@ =~= out_of_bounds(role@, name@, byte_size, offset, region.size));
    }
    Err(SrError::new_custom(text))
}

/// Assembles a [`TransferPass`].
pub struct TransferPassBuilder {
    pub common: PassCommonDataBuilder,
    pub copies: Vec<(CopyEnd, CopyEnd, BufferCopy)>,
}

impl TransferPassBuilder {
    /// A pass without copies.
    pub fn new(rg: &mut RenderGraph, name: &str) -> (builder: Self)
        requires
            old(rg).next_pass_id < u32::MAX,
        ensures
            *final(rg) == (RenderGraph {
                next_pass_id: (old(rg).next_pass_id + 1) as u32,
                ..*old(rg)
            }),
            builder.common.pass_common_data.id == old(rg).next_pass_id,
            builder.common.pass_common_data.name@ == name@,
            builder.common.pass_common_data.read@.len() == 0,
            builder.common.pass_common_data.write@.len() == 0,
            builder.common.pass_common_data.render is None,
            !builder.common.pass_common_data.output,
            builder.copies@.len() == 0,
    {
        TransferPassBuilder { common: PassCommonDataBuilder::new(rg, name), copies: Vec::new() }
    }

    /// Adds a copy from an untracked buffer, whose bounds the caller has checked, into
    /// a buffer of the graph. Only the destination is declared.
    pub fn copy_from_prechecked_raw(
        &mut self,
        src: u64,
        dst: &Handle<RawBuffer>,
        region: BufferCopy,
    ) -> (r: SrResult<()>)
        ensures
            ({
                let desc: BufferDesc = dst.desc;
                match r {
                    Ok(_) => {
                        &&& region.dst_offset + region.size <= desc.byte_size
                        &&& final(self).copies@ == old(self).copies@.push(
                            (CopyEnd::Raw(src), CopyEnd::Handle(dst.id), region),
                        )
                        &&& final(self).common.pass_common_data.write@ == old(
                            self,
                        ).common.pass_common_data.write@.push(
                            write_ref(dst.id, AccessType::TransferWrite),
                        )
                        &&& final(self).common.pass_common_data.same_but_write(
                            old(self).common.pass_common_data,
                        )
                    },
                    Err(e) => {
                        &&& region.dst_offset + region.size > desc.byte_size
                        &&& *final(self) == *old(self)
                        &&& e.is_custom(
                            out_of_bounds(
                                "destination"@,
                                desc.name@,
                                desc.byte_size,
                                region.dst_offset,
                                region.size,
                            ),
                        )
                    },
                }
            }),
    {
        let desc: BufferDesc = dst.desc;
        check_copy_bounds("destination", desc.name, desc.byte_size, region.dst_offset, &region)?;
        match self.common.write(dst, AccessType::TransferWrite) {
            Ok(_) => {},
            Err(e) => {
                return Err(e);
            },
        }
        self.copies.push((CopyEnd::Raw(src), CopyEnd::Handle(dst.id), region));
        Ok(())
    }

    /// The declared pass.
    pub fn build(self) -> (pass: TransferPass)
        ensures
            pass.common == self.common.pass_common_data,
            pass.copies == self.copies,
    {
        TransferPass { common: self.common.build(), copies: self.copies }
    }
}

// ---------------------------------------------------------------------------
// Shaders
// ---------------------------------------------------------------------------

/// The shaders backing a ray-tracing pass. Each stage names the module that holds it
/// by its index, and its entry point.
#[derive(Debug)]
pub struct RayTracingShaders {
    pub shaders: Vec<ShaderSource>,
    pub ray_gen: (usize, String),
    pub miss: (usize, String),
    pub closest_hit: (usize, String),
    pub any_hit: (usize, String),
}

impl RayTracingShaders {
    pub fn new(
        shaders: Vec<ShaderSource>,
        ray_gen: (usize, String),
        miss: (usize, String),
        closest_hit: (usize, String),
        any_hit: (usize, String),
    ) -> (r: Self)
        ensures
            r == (RayTracingShaders { shaders, ray_gen, miss, closest_hit, any_hit }),
    {
        RayTracingShaders { shaders, ray_gen, miss, closest_hit, any_hit }
    }
}

/// One binding of vertex data.
#[derive(Clone, Copy, Debug, PartialEq, Eq, Structural)]
pub struct VertexBinding {
    pub binding: u32,
    pub stride: u32,
    pub input_rate: i32,
}

/// One attribute of a vertex.
#[derive(Clone, Copy, Debug, PartialEq, Eq, Structural)]
pub struct VertexAttribute {
    pub location: u32,
    pub binding: u32,
    pub format: i32,
    pub offset: u32,
}

/// The shaders and fixed-function inputs backing a raster pass.
#[derive(Debug)]
pub struct RasterShaders {
    pub shaders: Vec<ShaderSource>,
    pub vertex: (usize, String),
    pub fragment: (usize, String),
    pub color_format: i32,
    pub vertex_binding: VertexBinding,
    pub vertex_attributes: Vec<VertexAttribute>,
}

impl RasterShaders {
    pub fn new(
        shaders: Vec<ShaderSource>,
        vertex: (usize, String),
        fragment: (usize, String),
        color_format: i32,
        vertex_binding: VertexBinding,
        vertex_attributes: Vec<VertexAttribute>,
    ) -> (r: Self)
        ensures
            r == (RasterShaders {
                shaders,
                vertex,
                fragment,
                color_format,
                vertex_binding,
                vertex_attributes,
            }),
    {
        RasterShaders { shaders, vertex, fragment, color_format, vertex_binding, vertex_attributes }
    }
}

/// The shaders backing a compute pass: the modules, and the one that holds the entry
/// point by its index.
#[derive(Debug)]
pub struct ComputeShaders {
    pub shaders: Vec<ShaderSource>,
    pub entry_point: (usize, String),
}

impl ComputeShaders {
    pub fn new(shaders: Vec<ShaderSource>, entry_index: usize, entry_point: String) -> (r: Self)
        ensures
            r == (ComputeShaders { shaders, entry_point: (entry_index, entry_point) }),
    {
        ComputeShaders { shaders, entry_point: (entry_index, entry_point) }
    }
}

/// What is said of a source that is not compiled.
pub open spec fn not_spirv(source: ShaderSource, context: Seq<char>) -> Seq<char> {
    match source {
        ShaderSource::Glsl(path) => context + " only accepts ShaderSource::Spirv; got Glsl("@ + quoted(
            path@,
        ) + ")"@,
        ShaderSource::Slang(path) => context + " only accepts ShaderSource::Spirv; got Slang("@
            + quoted(path@) + ")"@,
        ShaderSource::Spirv(_) => Seq::empty(),
    }
}

/// The compiled code of a source. Sources that still have to be compiled are refused;
/// `context` says who asked.
pub fn extract_spirv<'a>(src: &'a ShaderSource, context: &str) -> (r: SrResult<&'a Vec<u8>>)
    ensures
        match r {
            Ok(bytes) => *src == ShaderSource::Spirv(*bytes),
            Err(e) => !(src is Spirv) && e.is_custom(not_spirv(*src, context@)),
        },
{
    let (kind, path): (&str, &String) = match src {
        ShaderSource::Spirv(bytes) => {
            return Ok(bytes);
        },
        ShaderSource::Glsl(path) => (" only accepts ShaderSource::Spirv; got Glsl(", path),
        ShaderSource::Slang(path) => (" only accepts ShaderSource::Spirv; got Slang(", path),
    };
    let mut text = context.to_owned();
    text.append(kind);
    let quoted_path = quoted_text(path.as_str());
    text.append(quoted_path.as_str());
    text.append(")");
    proof {
        assert(text@ =~= not_spirv(*src, context@));
    }
    Err(SrError::new_custom(text))
}

/// What is said of a stage whose module does not exist. `stage` ends in a space, or is
/// empty.
pub open spec fn no_module(
    context: Seq<char>,
    stage: Seq<char>,
    entry: (usize, String),
    count: nat,
) -> Seq<char> {
    context + ": "@ + stage + "entry_point index "@ + decimal(entry.0 as nat) + " (\""@ + entry.1@
        + "\") out of range for "@ + decimal(count) + " shader(s)"@
}

/// What is said of a stage that has no compiled code, if anything is.
pub open spec fn stage_complaint(
    context: Seq<char>,
    stage: Seq<char>,
    shaders: Seq<ShaderSource>,
    entry: (usize, String),
) -> Option<Seq<char>> {
    if entry.0 >= shaders.len() {
        Some(no_module(context, stage, entry, shaders.len()))
    } else if !(shaders[entry.0 as int] is Spirv) {
        Some(not_spirv(shaders[entry.0 as int], context))
    } else {
        None
    }
}

/// The compiled code of a stage.
pub open spec fn stage_code(shaders: Seq<ShaderSource>, entry: (usize, String)) -> Seq<u8> {
    shaders[entry.0 as int]->Spirv_0@
}

/// Picks the module of a stage by its index, and its compiled code.
pub fn stage_spirv<'a>(
    context: &str,
    stage: &str,
    shaders: &'a Vec<ShaderSource>,
    entry: &(usize, String),
) -> (r: SrResult<&'a Vec<u8>>)
    ensures
        match r {
            Ok(bytes) => stage_complaint(context@, stage@, shaders@, *entry) is None && bytes@
                == stage_code(shaders@, *entry),
            Err(e) => match stage_complaint(context@, stage@, shaders@, *entry) {
                Some(text) => e.is_custom(text),
                None => false,
            },
        },
{
    if entry.0 < shaders.len() {
        return extract_spirv(&shaders[entry.0], context);
    }
    let mut text = context.to_owned();
    text.append(": ");
    text.append(stage);
    text.append("entry_point index ");
    push_decimal(&mut text, entry.0 as u64);
    text.append(" (\"");
    text.append(entry.1.as_str());
    text.append("\") out of range for ");
    push_decimal(&mut text, shaders.len() as u64);
    text.append(" shader(s)");
    proof {
        assert(text@ =~= no_module(context@, stage@, *entry, shaders@.len()));
    }
    Err(SrError::new_custom(text))
}

// ---------------------------------------------------------------------------
// Passes from shaders
// ---------------------------------------------------------------------------

/// Assembles a [`RaytracingRenderPass`].
pub struct RaytracingRenderPassBuilder {
    pub common: Option<PassCommonData>,
    pub shaders: Option<RayTracingShaders>,
    pub trace_extent: Option<(u32, u32, u32)>,
}

/// Assembles a [`RasterRenderPass`].
pub struct RasterRenderPassBuilder {
    pub common: Option<PassCommonData>,
    pub shaders: Option<RasterShaders>,
}

/// Assembles a [`ComputeRenderPass`].
pub struct ComputeRenderPassBuilder {
    pub common: Option<PassCommonData>,
    pub shaders: Option<ComputeShaders>,
    pub queue_affinity: ComputeQueueAffinity,
}

/// The first of two complaints.
pub open spec fn first_of(a: Option<Seq<char>>, b: Option<Seq<char>>) -> Option<Seq<char>> {
    match a {
        Some(text) => Some(text),
        None => b,
    }
}

/// What keeps a ray-tracing pass from being generated, if anything does.
pub open spec fn raytracing_complaint(
    shaders: Option<RayTracingShaders>,
    trace_extent: Option<(u32, u32, u32)>,
) -> Option<Seq<char>> {
    let context = "RaytracingRenderPassBuilder::generate_render"@;
    match (shaders, trace_extent) {
        (None, _) => Some(context + ": no shaders set"@),
        (Some(_), None) => Some(context + ": trace_extent not set"@),
        (Some(s), Some(_)) => first_of(
            stage_complaint(context, "ray_gen "@, s.shaders@, s.ray_gen),
            first_of(
                stage_complaint(context, "miss "@, s.shaders@, s.miss),
                first_of(
                    stage_complaint(context, "closest_hit "@, s.shaders@, s.closest_hit),
                    stage_complaint(context, "any_hit "@, s.shaders@, s.any_hit),
                ),
            ),
        ),
    }
}

/// The key that a ray-tracing pass interns its pipeline under.
pub open spec fn raytracing_pass_key(s: RayTracingShaders) -> u64 {
    raytracing_key(
        stage_code(s.shaders@, s.ray_gen),
        stage_code(s.shaders@, s.miss),
        stage_code(s.shaders@, s.closest_hit),
        stage_code(s.shaders@, s.any_hit),
    )
}

/// What keeps a raster pass from being generated, if anything does.
pub open spec fn raster_complaint(shaders: Option<RasterShaders>) -> Option<Seq<char>> {
    let context = "RasterRenderPassBuilder::generate_render"@;
    match shaders {
        None => Some(context + ": no shaders set"@),
        Some(s) => first_of(
            stage_complaint(context, "vertex "@, s.shaders@, s.vertex),
            stage_complaint(context, "fragment "@, s.shaders@, s.fragment),
        ),
    }
}

/// The key that a raster pass interns its pipeline under.
pub open spec fn raster_pass_key(s: RasterShaders) -> u64 {
    graphics_key(
        stage_code(s.shaders@, s.vertex),
        stage_code(s.shaders@, s.fragment),
        s.color_format,
    )
}

/// What keeps a compute pass from being generated, if anything does.
pub open spec fn compute_complaint(shaders: Option<ComputeShaders>) -> Option<Seq<char>> {
    let context = "ComputeRenderPassBuilder::generate_render"@;
    match shaders {
        None => Some(context + ": no shaders set"@),
        Some(s) => stage_complaint(context, ""@, s.shaders@, s.entry_point),
    }
}

/// The error of a builder that lacks something.
fn not_set(context: &str, what: &str) -> (e: SrError)
    ensures
        e.is_custom(context@ + what@),
{
    let mut text = context.to_owned();
    text.append(what);
    SrError::new_custom(text)
}

impl RaytracingRenderPassBuilder {
    /// What comes of the pass once its pipeline is interned, or fails to be.
    pub open spec fn generates(
        self,
        push: u64,
        pipeline: SrResult<PipelineHandle>,
        r: SrResult<Self>,
    ) -> bool {
        match (pipeline, r) {
            (Err(e), Err(f)) => e == f,
            (Ok(_), Err(f)) => self.common is None && f.is_custom(
                "RaytracingRenderPassBuilder::generate_render"@ + ": common not set"@,
            ),
            (Ok(handle), Ok(made)) => match self.common {
                Some(common) => made == (RaytracingRenderPassBuilder {
                    common: Some(
                        PassCommonData {
                            render: Some(
                                RenderJob::TraceRays {
                                    pipeline: handle,
                                    extent: self.trace_extent->0,
                                    push,
                                },
                            ),
                            ..common
                        },
                    ),
                    shaders: None,
                    trace_extent: self.trace_extent,
                }),
                None => false,
            },
            _ => false,
        }
    }

    /// Interns the pipeline and shader binding table of this pass, built by `build`
    /// where they are new, and has the pass trace rays with them. `push` finds the
    /// push data at record time.
    ///
    /// The shaders and the extent have to be set, each stage is picked by its index,
    /// and each picked module has to be compiled.
    pub fn generate_render<F: FnOnce() -> SrResult<CachedPipeline>>(
        self,
        rg: &mut RenderGraph,
        frame: usize,
        push: u64,
        build: F,
    ) -> (r: SrResult<Self>)
        requires
            old(rg).slots_wf(),
            old(rg).may_intern(frame),
            build.requires(()),
        ensures
            final(rg).slots_wf(),
            match raytracing_complaint(self.shaders, self.trace_extent) {
                Some(text) => *final(rg) == *old(rg) && (r matches Err(e) && e.is_custom(text)),
                None => exists|pipeline: SrResult<PipelineHandle>|
                    {
                        &&& #[trigger] old(rg).interns_into(
                            *final(rg),
                            frame,
                            raytracing_pass_key(self.shaders->0),
                            build,
                            pipeline,
                        )
                        &&& self.generates(push, pipeline, r)
                    },
            },
    {
        let context = "RaytracingRenderPassBuilder::generate_render";
        let shaders = match self.shaders {
            Some(shaders) => shaders,
            None => {
                return Err(not_set(context, ": no shaders set"));
            },
        };
        let extent = match self.trace_extent {
            Some(extent) => extent,
            None => {
                return Err(not_set(context, ": trace_extent not set"));
            },
        };
        let ray_gen = stage_spirv(context, "ray_gen ", &shaders.shaders, &shaders.ray_gen)?;
        let miss = stage_spirv(context, "miss ", &shaders.shaders, &shaders.miss)?;
        let closest_hit = stage_spirv(context, "closest_hit ", &shaders.shaders, &shaders.closest_hit)?;
        let any_hit = stage_spirv(context, "any_hit ", &shaders.shaders, &shaders.any_hit)?;
        let key: u64 = raytracing_pipeline_key(
            ray_gen.as_slice(),
            miss.as_slice(),
            closest_hit.as_slice(),
            any_hit.as_slice(),
        );
        proof {
            assert(key == raytracing_pass_key(self.shaders->0));
        }
        let pipeline = rg.intern_pipeline(frame, key, build);
        let handle = match pipeline {
            Ok(handle) => handle,
            Err(e) => {
                return Err(e);
            },
        };
        let mut common = match self.common {
            Some(common) => common,
            None => {
                return Err(not_set(context, ": common not set"));
            },
        };
        common.render = Some(RenderJob::TraceRays { pipeline: handle, extent, push });
        Ok(
            RaytracingRenderPassBuilder {
                common: Some(common),
                shaders: None,
                trace_extent: Some(extent),
            },
        )
    }
}

impl RasterRenderPassBuilder {
    /// What comes of the pass once its pipeline is interned, or fails to be.
    pub open spec fn generates(
        self,
        push: u64,
        pipeline: SrResult<PipelineHandle>,
        r: SrResult<Self>,
    ) -> bool {
        match (pipeline, r) {
            (Err(e), Err(f)) => e == f,
            (Ok(_), Err(f)) => self.common is None && f.is_custom(
                "RasterRenderPassBuilder::generate_render"@ + ": common not set"@,
            ),
            (Ok(handle), Ok(made)) => match self.common {
                Some(common) => made == (RasterRenderPassBuilder {
                    common: Some(
                        PassCommonData {
                            render: Some(RenderJob::Draw { pipeline: handle, push }),
                            ..common
                        },
                    ),
                    shaders: None,
                }),
                None => false,
            },
            _ => false,
        }
    }

    /// Interns the graphics pipeline of this pass, built by `build` where it is new,
    /// and has the pass bind it. `push` finds the push data at record time.
    pub fn generate_render<F: FnOnce() -> SrResult<CachedPipeline>>(
        self,
        rg: &mut RenderGraph,
        frame: usize,
        push: u64,
        build: F,
    ) -> (r: SrResult<Self>)
        requires
            old(rg).slots_wf(),
            old(rg).may_intern(frame),
            build.requires(()),
        ensures
            final(rg).slots_wf(),
            match raster_complaint(self.shaders) {
                Some(text) => *final(rg) == *old(rg) && (r matches Err(e) && e.is_custom(text)),
                None => exists|pipeline: SrResult<PipelineHandle>|
                    {
                        &&& #[trigger] old(rg).interns_into(
                            *final(rg),
                            frame,
                            raster_pass_key(self.shaders->0),
                            build,
                            pipeline,
                        )
                        &&& self.generates(push, pipeline, r)
                    },
            },
    {
        let context = "RasterRenderPassBuilder::generate_render";
        let shaders = match self.shaders {
            Some(shaders) => shaders,
            None => {
                return Err(not_set(context, ": no shaders set"));
            },
        };
        let vertex = stage_spirv(context, "vertex ", &shaders.shaders, &shaders.vertex)?;
        let fragment = stage_spirv(context, "fragment ", &shaders.shaders, &shaders.fragment)?;
        let key: u64 = graphics_pipeline_key(
            vertex.as_slice(),
            fragment.as_slice(),
            shaders.color_format,
        );
        proof {
            assert(key == raster_pass_key(self.shaders->0));
        }
        let pipeline = rg.intern_pipeline(frame, key, build);
        let handle = match pipeline {
            Ok(handle) => handle,
            Err(e) => {
                return Err(e);
            },
        };
        let mut common = match self.common {
            Some(common) => common,
            None => {
                return Err(not_set(context, ": common not set"));
            },
        };
        common.render = Some(RenderJob::Draw { pipeline: handle, push });
        Ok(RasterRenderPassBuilder { common: Some(common), shaders: None })
    }
}

impl ComputeRenderPassBuilder {
    /// What comes of the pass once its pipeline is interned, or fails to be.
    pub open spec fn generates(
        self,
        groups: (u32, u32, u32),
        push: u64,
        pipeline: SrResult<PipelineHandle>,
        r: SrResult<ComputeRenderPass>,
    ) -> bool {
        match (pipeline, r) {
            (Err(e), Err(f)) => e == f,
            (Ok(_), Err(f)) => self.common is None && f.is_custom(
                "ComputeRenderPassBuilder::generate_render"@ + ": common not set"@,
            ),
            (Ok(handle), Ok(made)) => match self.common {
                Some(common) => made == (ComputeRenderPass {
                    common: PassCommonData {
                        render: Some(RenderJob::Dispatch { pipeline: handle, groups, push }),
                        ..common
                    },
                    shaders: self.shaders,
                    queue_affinity: self.queue_affinity,
                }),
                None => false,
            },
            _ => false,
        }
    }

    /// Interns the compute pipeline of this pass, built by `build` where it is new, and
    /// has the pass run `groups` workgroups of it. `push` finds the push data at record
    /// time.
    pub fn generate_render<F: FnOnce() -> SrResult<CachedPipeline>>(
        self,
        rg: &mut RenderGraph,
        frame: usize,
        groups: (u32, u32, u32),
        push: u64,
        build: F,
    ) -> (r: SrResult<ComputeRenderPass>)
        requires
            old(rg).slots_wf(),
            old(rg).may_intern(frame),
            build.requires(()),
        ensures
            final(rg).slots_wf(),
            match compute_complaint(self.shaders) {
                Some(text) => *final(rg) == *old(rg) && (r matches Err(e) && e.is_custom(text)),
                None => exists|pipeline: SrResult<PipelineHandle>|
                    {
                        &&& #[trigger] old(rg).interns_into(
                            *final(rg),
                            frame,
                            compute_key(
                                stage_code((self.shaders->0).shaders@, (self.shaders->0).entry_point),
                            ),
                            build,
                            pipeline,
                        )
                        &&& self.generates(groups, push, pipeline, r)
                    },
            },
    {
        let context = "ComputeRenderPassBuilder::generate_render";
        let shaders = match self.shaders {
            Some(shaders) => shaders,
            None => {
                return Err(not_set(context, ": no shaders set"));
            },
        };
        let spirv = stage_spirv(context, "", &shaders.shaders, &shaders.entry_point)?;
        let key: u64 = compute_pipeline_key(spirv.as_slice());
        let pipeline = rg.intern_pipeline(frame, key, build);
        let handle = match pipeline {
            Ok(handle) => handle,
            Err(e) => {
                return Err(e);
            },
        };
        let mut common = match self.common {
            Some(common) => common,
            None => {
                return Err(not_set(context, ": common not set"));
            },
        };
        common.render = Some(RenderJob::Dispatch { pipeline: handle, groups, push });
        Ok(
            ComputeRenderPass {
                common,
                shaders: Some(shaders),
                queue_affinity: self.queue_affinity,
            },
        )
    }
}

} // verus!
