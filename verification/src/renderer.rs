//! The renderer around the frame.
use vk_sync_fork::AccessType;
use vstd::prelude::*;

use crate::assets::{AssetGroups, ResourceKey};
use crate::error::{SrError, SrResult};
use crate::path_tracer::{
    arena_ids, build_unified_graph, frame_declared, frame_pushes, frame_stopped, temporals_given,
    FrameDeclaration, ShaderCode, ShaderRole, TemporalTokens, FORMAT_B10G11R11_UFLOAT_PACK32,
    FRAME_PASSES, FRAME_RESOURCES, IMAGE_USAGE_SAMPLED, IMAGE_USAGE_STORAGE, TILING_OPTIMAL,
};
use crate::render_graph::alias::MemoryLocation;
use crate::render_graph::graph::{
    fresh_backing, import_views, slot_of, RenderGraph, MAX_FRAMES_IN_FLIGHT,
};
use crate::render_graph::pipeline_cache::CachedPipeline;
use crate::render_graph::resource::{
    AccelerationStructure, BufferDesc, GraphResourceDesc, GraphResourceImportInfo, Handle, Image,
    ImageDesc, ImportState, RawBuffer,
};
use crate::render_graph::submission::{
    copy_entered, copy_left, previous_frame, transition_views, ImageTransition, SemaphoreOp,
    Submission, STAGE_ALL_COMMANDS,
};
use crate::scheduled::{due_at, due_of, law_each_waits_for_its_frame, waiting_of, Scheduled};
use crate::settings::Settings;
use crate::utils::tuple_to_extent3d;

verus! {

// ---------------------------------------------------------------------------
// Where a frame goes
// ---------------------------------------------------------------------------

/// Vulkan's stage of copies and blits.
pub const STAGE_TRANSFER: u64 = 0x1000;

/// Where a finished frame goes. Semaphores are tokens.
#[derive(Clone, Copy, Debug, PartialEq, Eq, Structural)]
pub enum FrameOutput {
    /// To an image of the swapchain, which is then shown.
    Present { acquire: u64, present: u64 },
    /// To an image of the swapchain, on which somebody else draws before showing it.
    PresentOverlay { acquire: u64 },
    /// To an image that is read back.
    Offscreen,
}

/// What a frame's submission does besides: the access its image ends in, and what it
/// waits for and signals.
#[derive(Debug)]
pub struct OutputPlan {
    pub dst_final: AccessType,
    pub extra_waits: Vec<SemaphoreOp>,
    pub extra_signals: Vec<SemaphoreOp>,
}

impl FrameOutput {
    /// The access the image ends in: only a renderer that shows it makes it ready for
    /// that.
    pub open spec fn final_access(self) -> AccessType {
        if self is Present {
            AccessType::Present
        } else {
            AccessType::General
        }
    }

    /// What the blit waits for: that an image of the swapchain is there.
    pub open spec fn waits(self) -> Seq<SemaphoreOp> {
        match self {
            FrameOutput::Present { acquire, .. } => seq![(acquire, 0, STAGE_TRANSFER)],
            FrameOutput::PresentOverlay { acquire } => seq![(acquire, 0, STAGE_TRANSFER)],
            FrameOutput::Offscreen => Seq::empty(),
        }
    }

    /// What is signaled: that the image can be shown, where the renderer shows it.
    pub open spec fn signals(self) -> Seq<SemaphoreOp> {
        match self {
            FrameOutput::Present { present, .. } => seq![(present, 0, STAGE_ALL_COMMANDS)],
            _ => Seq::empty(),
        }
    }

    /// What a frame's submission does to go where it goes.
    pub fn plan(&self) -> (plan: OutputPlan)
        ensures
            plan.dst_final == self.final_access(),
            plan.extra_waits@ == self.waits(),
            plan.extra_signals@ == self.signals(),
    {
        let mut extra_waits: Vec<SemaphoreOp> = Vec::new();
        let mut extra_signals: Vec<SemaphoreOp> = Vec::new();
        let dst_final = match *self {
            FrameOutput::Present { acquire, present } => {
                extra_waits.push((acquire, 0, STAGE_TRANSFER));
                extra_signals.push((present, 0, STAGE_ALL_COMMANDS));
                AccessType::Present
            },
            FrameOutput::PresentOverlay { acquire } => {
                extra_waits.push((acquire, 0, STAGE_TRANSFER));
                AccessType::General
            },
            FrameOutput::Offscreen => AccessType::General,
        };
        proof {
            assert(extra_waits@ =~= self.waits());
            assert(extra_signals@ =~= self.signals());
        }
        OutputPlan { dst_final, extra_waits, extra_signals }
    }
}

/// Puts one element into an empty list: a buffer cannot be made of nothing.
pub fn pad_if_empty<T>(list: Vec<T>, dummy: T) -> (padded: Vec<T>)
    ensures
        padded@ == (if list@.len() == 0 {
            seq![dummy]
        } else {
            list@
        }),
{
    let mut list = list;
    if list.len() == 0 {
        list.push(dummy);
        assert(list@ =~= seq![dummy]);
    }
    list
}

// ---------------------------------------------------------------------------
// What lives across frames
// ---------------------------------------------------------------------------

pub const FORMAT_R8G8B8A8_UNORM: i32 = 37;
pub const IMAGE_USAGE_TRANSFER_SRC: u32 = 0x1;
pub const IMAGE_USAGE_TRANSFER_DST: u32 = 0x2;
pub const BUFFER_USAGE_TRANSFER_DST: u32 = 0x2;
pub const BUFFER_USAGE_STORAGE_BUFFER: u32 = 0x20;
pub const BUFFER_USAGE_SHADER_DEVICE_ADDRESS: u32 = 0x2_0000;

/// How many frames go by before an image that is read back is worth reading: what is
/// accumulated starts empty.
pub const WARMUP_FRAMES: u32 = 16;

/// An image that is accumulated across frames.
pub open spec fn temporal_image(name: &'static str, extent: (u32, u32, u32)) -> ImageDesc {
    ImageDesc {
        extent,
        format: FORMAT_B10G11R11_UFLOAT_PACK32,
        tiling: TILING_OPTIMAL,
        location: MemoryLocation::GpuOnly,
        usage: IMAGE_USAGE_STORAGE | IMAGE_USAGE_SAMPLED,
        name,
    }
}

/// A buffer of reservoirs, one for each pixel.
pub open spec fn reservoir_buffer(
    name: &'static str,
    num_pixels: int,
    element_size: u64,
) -> BufferDesc {
    BufferDesc {
        byte_size: (num_pixels * element_size) as u64,
        alignment: 1,
        memory_location: MemoryLocation::GpuOnly,
        usage: BUFFER_USAGE_STORAGE_BUFFER | BUFFER_USAGE_SHADER_DEVICE_ADDRESS
            | BUFFER_USAGE_TRANSFER_DST,
        name,
    }
}

/// Description of an image that is accumulated across frames.
pub fn temporal_image_desc(name: &'static str, extent: (u32, u32, u32)) -> (desc: ImageDesc)
    ensures
        desc == temporal_image(name, extent),
{
    ImageDesc {
        extent,
        format: FORMAT_B10G11R11_UFLOAT_PACK32,
        tiling: TILING_OPTIMAL,
        location: MemoryLocation::GpuOnly,
        usage: IMAGE_USAGE_STORAGE | IMAGE_USAGE_SAMPLED,
        name,
    }
}

/// Description of a buffer of reservoirs. Shaders reach it by its address.
pub fn reservoir_buffer_desc(name: &'static str, num_pixels: u64, element_size: u64) -> (desc:
    BufferDesc)
    requires
        num_pixels * element_size <= u64::MAX,
    ensures
        desc == reservoir_buffer(name, num_pixels as int, element_size),
{
    BufferDesc {
        byte_size: num_pixels * element_size,
        alignment: 1,
        memory_location: MemoryLocation::GpuOnly,
        usage: BUFFER_USAGE_STORAGE_BUFFER | BUFFER_USAGE_SHADER_DEVICE_ADDRESS
            | BUFFER_USAGE_TRANSFER_DST,
        name,
    }
}

/// Description of the image that the last pass of a frame writes.
pub fn postprocess_image_desc(extent: (u32, u32, u32)) -> (desc: ImageDesc)
    ensures
        desc == (ImageDesc {
            extent,
            format: FORMAT_R8G8B8A8_UNORM,
            tiling: TILING_OPTIMAL,
            location: MemoryLocation::GpuOnly,
            usage: IMAGE_USAGE_STORAGE | IMAGE_USAGE_TRANSFER_DST | IMAGE_USAGE_TRANSFER_SRC,
            name: "sunray (internal, pre-blit) postprocess result image",
        }),
{
    ImageDesc {
        extent,
        format: FORMAT_R8G8B8A8_UNORM,
        tiling: TILING_OPTIMAL,
        location: MemoryLocation::GpuOnly,
        usage: IMAGE_USAGE_STORAGE | IMAGE_USAGE_TRANSFER_DST | IMAGE_USAGE_TRANSFER_SRC,
        name: "sunray (internal, pre-blit) postprocess result image",
    }
}

/// The objects behind what lives across frames, by tokens.
#[derive(Clone, Copy, Debug)]
pub struct TemporalBackings {
    pub accumulation: [u64; MAX_FRAMES_IN_FLIGHT],
    pub denoising: [u64; MAX_FRAMES_IN_FLIGHT],
    pub reservoir: [u64; MAX_FRAMES_IN_FLIGHT],
    pub reservoir_gi: [u64; MAX_FRAMES_IN_FLIGHT],
}

/// The sizes of one reservoir of each kind, in bytes.
#[derive(Clone, Copy, Debug, PartialEq, Eq, Structural)]
pub struct ReservoirSizes {
    pub reservoir: u64,
    pub reservoir_gi: u64,
}

/// The copies of one resource, with undefined contents.
pub open spec fn fresh_copies(
    desc: GraphResourceDesc,
    backings: [u64; MAX_FRAMES_IN_FLIGHT],
) -> Seq<ImportState> {
    Seq::new(MAX_FRAMES_IN_FLIGHT as nat, |i: int| fresh_backing(desc, backings[i]))
}

/// The pixels of an extent.
pub open spec fn pixels(extent: (u32, u32, u32)) -> int {
    extent.0 * extent.1
}

/// Whether the buffers for an extent can be measured in 64 bits, and its pixels in 32.
pub open spec fn measurable(extent: (u32, u32, u32), sizes: ReservoirSizes) -> bool {
    &&& pixels(extent) <= u32::MAX
    &&& pixels(extent) * sizes.reservoir <= u64::MAX
    &&& pixels(extent) * sizes.reservoir_gi <= u64::MAX
}

/// Whether the last four temporal resources of a graph are those of a frame, made in
/// `frame`: the images that accumulate and denoise, and both kinds of reservoirs.
pub open spec fn temporals_made(
    before: RenderGraph,
    after: RenderGraph,
    tokens: TemporalTokens,
    extent: (u32, u32, u32),
    sizes: ReservoirSizes,
    backings: TemporalBackings,
    frame: usize,
) -> bool {
    let first = before.temporal_resources@.len() as int;
    let made = |i: int| import_views(after.temporal_resources@[first + i].imports@);
    let accumulation = temporal_image("Accumulation", extent);
    let denoising = temporal_image("Denoise", extent);
    let reservoir = reservoir_buffer(
        "ReSTIR Reservoir Buffer",
        pixels(extent),
        sizes.reservoir,
    );
    let reservoir_gi = reservoir_buffer(
        "ReSTIR GI Reservoir Buffer",
        pixels(extent),
        sizes.reservoir_gi,
    );
    &&& after == (RenderGraph { temporal_resources: after.temporal_resources, ..before })
    &&& after.temporal_resources@.len() == first + 4
    &&& after.temporal_resources@.take(first) == before.temporal_resources@
    &&& forall|i: int|
        first <= i < first + 4 ==> (#[trigger] after.temporal_resources@[i]).frame_of_creation
            == frame
    &&& tokens.accumulation.index == first
    &&& tokens.accumulation.desc == accumulation
    &&& made(0) == fresh_copies(GraphResourceDesc::Image(accumulation), backings.accumulation)
    &&& tokens.denoising.index == first + 1
    &&& tokens.denoising.desc == denoising
    &&& made(1) == fresh_copies(GraphResourceDesc::Image(denoising), backings.denoising)
    &&& tokens.reservoir.index == first + 2
    &&& tokens.reservoir.desc == reservoir
    &&& made(2) == fresh_copies(GraphResourceDesc::Buffer(reservoir), backings.reservoir)
    &&& tokens.reservoir_gi.index == first + 3
    &&& tokens.reservoir_gi.desc == reservoir_gi
    &&& made(3) == fresh_copies(GraphResourceDesc::Buffer(reservoir_gi), backings.reservoir_gi)
}

/// Keeps the backings of what lives across frames in a graph.
fn make_temporals(
    rg: &mut RenderGraph,
    extent: (u32, u32, u32),
    sizes: ReservoirSizes,
    backings: TemporalBackings,
    frame: usize,
) -> (r: SrResult<TemporalTokens>)
    requires
        measurable(extent, sizes),
    ensures
        r matches Ok(tokens) && temporals_made(
            *old(rg),
            *final(rg),
            tokens,
            extent,
            sizes,
            backings,
            frame,
        ),
{
    let num_pixels: u64 = extent.0 as u64 * extent.1 as u64;
    let accumulation = rg.create_temporal_resource(
        temporal_image_desc("Accumulation", extent),
        backings.accumulation,
        frame,
    )?;
    let ghost g1 = rg.temporal_resources@;
    let denoising = rg.create_temporal_resource(
        temporal_image_desc("Denoise", extent),
        backings.denoising,
        frame,
    )?;
    let ghost g2 = rg.temporal_resources@;
    let reservoir = rg.create_temporal_resource(
        reservoir_buffer_desc("ReSTIR Reservoir Buffer", num_pixels, sizes.reservoir),
        backings.reservoir,
        frame,
    )?;
    let ghost g3 = rg.temporal_resources@;
    let reservoir_gi = rg.create_temporal_resource(
        reservoir_buffer_desc("ReSTIR GI Reservoir Buffer", num_pixels, sizes.reservoir_gi),
        backings.reservoir_gi,
        frame,
    )?;
    proof {
        let end = rg.temporal_resources@;
        let first = old(rg).temporal_resources@.len() as int;
        assert(end.drop_last() == g3 && g3.drop_last() == g2 && g2.drop_last() == g1);
        assert(end.take(first) =~= old(rg).temporal_resources@) by {
            assert forall|i: int| 0 <= i < first implies end[i] == old(rg).temporal_resources@[i] by {
                assert(end.drop_last()[i] == g3[i]);
                assert(g3.drop_last()[i] == g2[i]);
                assert(g2.drop_last()[i] == g1[i]);
                assert(g1.drop_last()[i] == old(rg).temporal_resources@[i]);
            }
        }
        assert(end[first + 2] == end.drop_last()[first + 2]);
        assert(end[first + 1] == end.drop_last()[first + 1]);
        assert(end[first] == end.drop_last()[first]);
        assert(g3[first + 1] == g3.drop_last()[first + 1]);
        assert(g3[first] == g3.drop_last()[first]);
        assert(g2[first] == g2.drop_last()[first]);
    }
    Ok(TemporalTokens { accumulation, denoising, reservoir, reservoir_gi })
}

// ---------------------------------------------------------------------------
// Camera matrices
// ---------------------------------------------------------------------------

/// The matrices of a camera, each column by column.
#[derive(Clone, Copy, Debug)]
pub struct CameraMatrices {
    pub view_inverse: [u32; 16],
    pub proj_inverse: [u32; 16],
    pub view_proj: [u32; 16],
    pub prev_view_proj: [u32; 16],
}

/// A four by four matrix, turned over its diagonal.
pub open spec fn transposed(m: Seq<u32>) -> Seq<u32> {
    Seq::new(16, |i: int| m[(i % 4) * 4 + i / 4])
}

/// A four by four matrix, turned over its diagonal.
pub fn transpose(m: [u32; 16]) -> (t: [u32; 16])
    ensures
        t@ == transposed(m@),
{
    let t = [
        m[0],
        m[4],
        m[8],
        m[12],
        m[1],
        m[5],
        m[9],
        m[13],
        m[2],
        m[6],
        m[10],
        m[14],
        m[3],
        m[7],
        m[11],
        m[15],
    ];
    assert(t@ =~= transposed(m@));
    t
}

/// Turning a matrix twice gives it back.
pub proof fn law_transposing_twice_changes_nothing(m: Seq<u32>)
    requires
        m.len() == 16,
    ensures
        transposed(transposed(m)) == m,
{
    assert(transposed(transposed(m)) =~= m);
}

// ---------------------------------------------------------------------------
// The renderer
// ---------------------------------------------------------------------------

/// The swapchain as the renderer counts it: how many frames went to it, and per frame in
/// flight the frame that was rendered last.
#[derive(Clone, Copy, Debug)]
pub struct SwapchainCount {
    pub frame_count: u64,
    pub img_rendered_frames: [u64; MAX_FRAMES_IN_FLIGHT],
}

/// A renderer. `S` and `E` are what is scheduled for the start and for the end of
/// frames.
pub struct Renderer<S, E> {
    pub settings: Settings,
    pub image_extent: (u32, u32, u32),
    pub image_format: i32,
    pub sizes: ReservoirSizes,
    pub shaders: ShaderCode,
    pub assets: AssetGroups,
    pub render_graph: RenderGraph,
    pub temporal: TemporalTokens,
    /// The frames since what is accumulated was started afresh.
    pub relative_frame_count: u32,
    /// The frames since the renderer was made.
    pub absolute_frame_count: usize,
    /// The last frame that the device has completed.
    pub completed_frame: u64,
    pub prev_view_proj: [u32; 16],
    pub start_of_frame_callbacks: Scheduled<S>,
    pub end_of_frame_callbacks: Scheduled<E>,
    pub swapchain: Option<SwapchainCount>,
}

/// A frame that is ready to be submitted.
#[derive(Debug)]
pub struct FrameSubmission {
    pub frame: u64,
    /// The barriers before and after the copy into the output image.
    pub before_copy: Vec<ImageTransition>,
    pub after_copy: Vec<ImageTransition>,
    pub submission: Submission,
    /// The frame to wait for before the next is recorded, if any.
    pub wait: Option<u64>,
}

impl<S, E> Renderer<S, E> {
    /// The graph has its slots and what lives across frames, and the assets are in order.
    pub open spec fn wf(self) -> bool {
        &&& self.render_graph.slots_wf()
        &&& temporals_given(self.render_graph, self.temporal)
        &&& self.assets.wf()
    }

    /// A renderer for images of an extent. Frame 0 stands for nothing: it counts as
    /// completed.
    pub fn new(
        image_extent: (u32, u32),
        image_format: i32,
        settings: Settings,
        shaders: ShaderCode,
        sizes: ReservoirSizes,
        backings: TemporalBackings,
        with_surface: bool,
    ) -> (r: SrResult<Self>)
        requires
            measurable((image_extent.0, image_extent.1, 1), sizes),
        ensures
            r matches Ok(renderer) && {
                &&& renderer.wf()
                &&& renderer.settings == settings
                &&& renderer.image_extent == (image_extent.0, image_extent.1, 1u32)
                &&& renderer.image_format == image_format
                &&& renderer.sizes == sizes
                &&& renderer.shaders == shaders
                &&& renderer.assets.next_group == 0
                &&& renderer.assets.scene_groups@ == Map::<u64, Vec<ResourceKey>>::empty()
                &&& renderer.relative_frame_count == 0
                &&& renderer.absolute_frame_count == 0
                &&& renderer.completed_frame == 0
                &&& forall|i: int| 0 <= i < 16 ==> renderer.prev_view_proj[i] == 0
                &&& renderer.start_of_frame_callbacks.entries@.len() == 0
                &&& renderer.end_of_frame_callbacks.entries@.len() == 0
                &&& renderer.render_graph.is_blank()
                &&& renderer.render_graph.temporal_resources@.len() == 4
                &&& renderer.tracks_temporals(backings, 0)
                &&& match renderer.swapchain {
                    Some(count) => with_surface && count.frame_count == 0
                        && count.img_rendered_frames[0] == 0 && count.img_rendered_frames[1] == 0,
                    None => !with_surface,
                }
            },
    {
        let extent = tuple_to_extent3d(image_extent);
        let mut render_graph = RenderGraph::new();
        let ghost before = render_graph;
        let temporal = make_temporals(&mut render_graph, extent, sizes, backings, 0)?;
        let swapchain = if with_surface {
            Some(SwapchainCount { frame_count: 0, img_rendered_frames: [0, 0] })
        } else {
            None
        };
        let renderer = Renderer {
            settings,
            image_extent: extent,
            image_format,
            sizes,
            shaders,
            assets: AssetGroups::new(),
            render_graph,
            temporal,
            relative_frame_count: 0,
            absolute_frame_count: 0,
            completed_frame: 0,
            prev_view_proj: [0; 16],
            start_of_frame_callbacks: Scheduled::new(),
            end_of_frame_callbacks: Scheduled::new(),
            swapchain,
        };
        proof {
            lemma_temporals_held(
                before,
                renderer.render_graph,
                temporal,
                extent,
                sizes,
                backings,
                0,
            );
            assert(before.temporal_resources@.len() == 0);
            assert(temporals_made(
                before,
                renderer.render_graph,
                renderer.temporal,
                renderer.image_extent,
                renderer.sizes,
                backings,
                0,
            ));
        }
        Ok(renderer)
    }

    /// What lives across frames has this extent and these backings, fresh in `frame`.
    pub open spec fn tracks_temporals(self, backings: TemporalBackings, frame: usize) -> bool {
        exists|before: RenderGraph|
            before.temporal_resources@.len() == 0 && #[trigger] temporals_made(
                before,
                self.render_graph,
                self.temporal,
                self.image_extent,
                self.sizes,
                backings,
                frame,
            )
    }
}

proof fn lemma_temporals_held(
    before: RenderGraph,
    after: RenderGraph,
    tokens: TemporalTokens,
    extent: (u32, u32, u32),
    sizes: ReservoirSizes,
    backings: TemporalBackings,
    frame: usize,
)
    requires
        temporals_made(before, after, tokens, extent, sizes, backings, frame),
    ensures
        temporals_given(after, tokens),
{
    let first = before.temporal_resources@.len() as int;
    let made = |i: int| import_views(after.temporal_resources@[first + i].imports@);
    assert(made(0).len() == MAX_FRAMES_IN_FLIGHT);
    assert(made(1).len() == MAX_FRAMES_IN_FLIGHT);
    assert(made(2).len() == MAX_FRAMES_IN_FLIGHT);
    assert(made(3).len() == MAX_FRAMES_IN_FLIGHT);
}

impl<S, E> Renderer<S, E> {
    /// Scheduling something for the start of the next frame leads to `after`.
    pub open spec fn calls_at_start(self, after: Self, callback: S) -> bool {
        &&& after.start_of_frame_callbacks.entries@ == self.start_of_frame_callbacks.entries@.push(
            ((self.absolute_frame_count + 1) as u64, callback),
        )
        &&& after == (Renderer {
            start_of_frame_callbacks: after.start_of_frame_callbacks,
            ..self
        })
    }

    /// Scheduling something for the end of the next frame leads to `after`.
    pub open spec fn calls_at_end(self, after: Self, callback: E) -> bool {
        &&& after.end_of_frame_callbacks.entries@ == self.end_of_frame_callbacks.entries@.push(
            ((self.absolute_frame_count + 1) as u64, callback),
        )
        &&& after == (Renderer { end_of_frame_callbacks: after.end_of_frame_callbacks, ..self })
    }

    /// Taking out what is due at the start of a frame leads to `after`.
    pub open spec fn starts_with(self, after: Self, upcoming_frame: u64, due: Seq<S>) -> bool {
        let entries = self.start_of_frame_callbacks.entries@;
        &&& due == due_of(entries, upcoming_frame, entries.len())
        &&& after.start_of_frame_callbacks.entries@ == waiting_of(
            entries,
            upcoming_frame,
            entries.len(),
        )
        &&& after == (Renderer {
            start_of_frame_callbacks: after.start_of_frame_callbacks,
            ..self
        })
    }

    /// Taking out what waited for completed frames leads to `after`.
    pub open spec fn ends_with(self, after: Self, due: Seq<E>) -> bool {
        let entries = self.end_of_frame_callbacks.entries@;
        &&& due == due_of(entries, self.completed_frame, entries.len())
        &&& after.end_of_frame_callbacks.entries@ == waiting_of(
            entries,
            self.completed_frame,
            entries.len(),
        )
        &&& after == (Renderer { end_of_frame_callbacks: after.end_of_frame_callbacks, ..self })
    }

    /// Scheduling the removal of a mesh leads to `after`.
    pub open spec fn unloads(self, after: Self, removal: E) -> bool {
        &&& after.end_of_frame_callbacks.entries@ == self.end_of_frame_callbacks.entries@.push(
            ((self.absolute_frame_count + 1 + MAX_FRAMES_IN_FLIGHT) as u64, removal),
        )
        &&& after == (Renderer { end_of_frame_callbacks: after.end_of_frame_callbacks, ..self })
    }

    /// Scheduling what is to be noted of a frame's builds leads to `after`.
    pub open spec fn marks_builds(self, after: Self, marks: Seq<E>) -> bool {
        &&& after.end_of_frame_callbacks.entries@ == self.end_of_frame_callbacks.entries@ + due_at(
            self.absolute_frame_count as u64,
            marks,
        )
        &&& after == (Renderer { end_of_frame_callbacks: after.end_of_frame_callbacks, ..self })
    }

    /// Fitting the renderer to an extent leads to `after`.
    pub open spec fn resizes(
        self,
        after: Self,
        image_extent: (u32, u32),
        backings: TemporalBackings,
        changed: bool,
    ) -> bool {
        let extent = (image_extent.0, image_extent.1, 1u32);
        &&& changed == (extent != self.image_extent)
        &&& !changed ==> after == self
        &&& changed ==> {
            &&& after == (Renderer {
                image_extent: extent,
                render_graph: after.render_graph,
                temporal: after.temporal,
                relative_frame_count: 0,
                ..self
            })
            &&& after.render_graph == (RenderGraph {
                temporal_resources: after.render_graph.temporal_resources,
                ..self.render_graph
            })
            &&& after.render_graph.temporal_resources@.len() == 4
            &&& after.tracks_temporals(backings, self.absolute_frame_count)
        }
    }

    /// The images that were never written, though what is read of them is their history.
    pub open spec fn undefined_images(self) -> Seq<u64> {
        seq![
            self.backing(self.temporal.accumulation.index as int, 0),
            self.backing(self.temporal.accumulation.index as int, 1),
            self.backing(self.temporal.denoising.index as int, 0),
            self.backing(self.temporal.denoising.index as int, 1),
        ]
    }

    /// Starting the next frame leads to `after`.
    pub open spec fn advances_to(self, after: Self, frame_count: u32) -> bool {
        &&& frame_count == self.relative_frame_count
        &&& after == (Renderer {
            relative_frame_count: (self.relative_frame_count + 1) as u32,
            absolute_frame_count: (self.absolute_frame_count + 1) as usize,
            render_graph: after.render_graph,
            ..self
        })
        &&& self.render_graph.resets_to(after.render_graph, after.absolute_frame_count)
        &&& after.render_graph.ids_are_indices()
    }

    /// Handing the matrices of a frame to its shaders leads to `after`.
    pub open spec fn hands_matrices(
        self,
        after: Self,
        camera: CameraMatrices,
        matrices: CameraMatrices,
    ) -> bool {
        &&& matrices.view_inverse@ == transposed(camera.view_inverse@)
        &&& matrices.proj_inverse@ == transposed(camera.proj_inverse@)
        &&& matrices.view_proj@ == transposed(camera.view_proj@)
        &&& matrices.prev_view_proj@ == transposed(self.prev_view_proj@)
        &&& after == (Renderer { prev_view_proj: camera.view_proj, ..self })
    }

    /// Finishing the frame that was declared leads to `after`.
    pub open spec fn finishes(
        self,
        after: Self,
        source: u32,
        output: FrameOutput,
        timeline: u64,
        release: E,
        done: FrameSubmission,
    ) -> bool {
        let left = self.render_graph.presented_in(source);
        let slot = slot_of(self.absolute_frame_count as int);
        &&& done.frame == self.absolute_frame_count
        &&& transition_views(done.before_copy@) == copy_entered(left)
        &&& transition_views(done.after_copy@) == copy_left(left, output.final_access())
        &&& done.submission.waits@ == seq![
            (timeline, previous_frame(done.frame), STAGE_ALL_COMMANDS),
        ] + output.waits()
        &&& done.submission.signals@ == seq![(timeline, done.frame, STAGE_ALL_COMMANDS)]
            + output.signals()
        &&& done.wait == if self.settings.serialize_frames {
            Some(done.frame)
        } else {
            None
        }
        &&& after.end_of_frame_callbacks.entries@ == self.end_of_frame_callbacks.entries@.push(
            (done.frame, release),
        )
        &&& after == (Renderer {
            render_graph: after.render_graph,
            end_of_frame_callbacks: after.end_of_frame_callbacks,
            ..self
        })
        &&& after.render_graph == (RenderGraph {
            passes: after.render_graph.passes,
            virtual_resources: after.render_graph.virtual_resources,
            retired_passes: after.render_graph.retired_passes,
            retired_resources: after.render_graph.retired_resources,
            ..self.render_graph
        })
        &&& after.render_graph.passes@.len() == 0
        &&& after.render_graph.virtual_resources@.len() == 0
        &&& after.render_graph.retired_passes@ == self.render_graph.retired_passes@.update(
            slot,
            self.render_graph.passes,
        )
        &&& after.render_graph.retired_resources@ == self.render_graph.retired_resources@.update(
            slot,
            self.render_graph.virtual_resources,
        )
    }

    /// Taking the next slot of the swapchain leads to `after`.
    pub open spec fn takes_slot(self, after: Self, r: SrResult<(usize, u64)>) -> bool {
        match r {
            Ok((slot, awaited)) => {
                &&& self.swapchain matches Some(count)
                &&& slot == count.frame_count % MAX_FRAMES_IN_FLIGHT as u64
                &&& awaited == count.img_rendered_frames[slot as int]
                &&& after == (Renderer {
                    swapchain: Some(
                        SwapchainCount { frame_count: (count.frame_count + 1) as u64, ..count },
                    ),
                    ..self
                })
            },
            Err(e) => {
                &&& self.swapchain is None
                &&& after == self
                &&& e.is_custom("render_to_swapchain: renderer was built without a surface"@)
            },
        }
    }

    /// Noting the frame that was rendered last for a slot leads to `after`.
    pub open spec fn notes_frame(self, after: Self, slot: usize, frame: u64) -> bool {
        match self.swapchain {
            Some(count) => {
                &&& after == (Renderer { swapchain: after.swapchain, ..self })
                &&& after.swapchain matches Some(noted)
                &&& noted.frame_count == count.frame_count
                &&& noted.img_rendered_frames@ == count.img_rendered_frames@.update(
                    slot as int,
                    frame,
                )
            },
            None => after == self,
        }
    }
}

impl<S, E> Renderer<S, E> {
    /// The number of the next frame.
    pub fn upcoming_frame(&self) -> (frame: u64)
        requires
            self.absolute_frame_count < u64::MAX,
        ensures
            frame == self.absolute_frame_count + 1,
    {
        self.absolute_frame_count as u64 + 1
    }

    /// Schedules something for the start of the next frame.
    pub fn add_start_of_frame_callback(&mut self, callback: S)
        requires
            old(self).absolute_frame_count < u64::MAX,
        ensures
            old(self).calls_at_start(*final(self), callback),
    {
        let frame: u64 = self.upcoming_frame();
        self.start_of_frame_callbacks.push(frame, callback);
    }

    /// Schedules something for when the device has completed the next frame. What the
    /// frame used can be dropped then.
    pub fn add_end_of_frame_callback(&mut self, callback: E)
        requires
            old(self).absolute_frame_count < u64::MAX,
        ensures
            old(self).calls_at_end(*final(self), callback),
    {
        let frame: u64 = self.upcoming_frame();
        self.end_of_frame_callbacks.push(frame, callback);
    }

    /// Takes out what is due at the start of a frame, in order.
    pub fn run_start_of_frame_callbacks(&mut self, upcoming_frame: u64) -> (due: Vec<S>)
        ensures
            old(self).starts_with(*final(self), upcoming_frame, due@),
    {
        self.start_of_frame_callbacks.take_due(upcoming_frame)
    }

    /// Takes out what waited for frames that the device has completed, in order.
    pub fn run_due_end_of_frame_callbacks(&mut self) -> (due: Vec<E>)
        ensures
            old(self).ends_with(*final(self), due@),
    {
        let completed: u64 = self.completed_frame;
        self.end_of_frame_callbacks.take_due(completed)
    }

    /// Schedules the removal of a mesh for when no frame in flight can use it any more.
    pub fn unload_mesh(&mut self, removal: E)
        requires
            old(self).absolute_frame_count + 1 + MAX_FRAMES_IN_FLIGHT <= u64::MAX,
        ensures
            old(self).unloads(*final(self), removal),
    {
        let due: u64 = self.absolute_frame_count as u64 + 1 + MAX_FRAMES_IN_FLIGHT as u64;
        self.end_of_frame_callbacks.push(due, removal);
    }

    /// Fits what the renderer owns to a new extent: what lives across frames is made
    /// afresh from `backings`, and accumulation starts over. An extent that is the
    /// present one changes nothing; the answer says whether anything changed.
    pub fn resize_internal_images(
        &mut self,
        image_extent: (u32, u32),
        backings: TemporalBackings,
    ) -> (r: SrResult<bool>)
        requires
            old(self).wf(),
            measurable((image_extent.0, image_extent.1, 1), old(self).sizes),
        ensures
            final(self).wf(),
            r matches Ok(changed) && old(self).resizes(
                *final(self),
                image_extent,
                backings,
                changed,
            ),
    {
        let new_extent = tuple_to_extent3d(image_extent);
        if new_extent.0 == self.image_extent.0 && new_extent.1 == self.image_extent.1
            && new_extent.2 == self.image_extent.2 {
            return Ok(false);
        }
        self.image_extent = new_extent;
        self.render_graph.clear_temporal_resources();
        let ghost before = self.render_graph;
        let sizes = self.sizes;
        let frame: usize = self.absolute_frame_count;
        let temporal = make_temporals(&mut self.render_graph, new_extent, sizes, backings, frame)?;
        self.temporal = temporal;
        self.relative_frame_count = 0;
        proof {
            lemma_temporals_held(
                before,
                self.render_graph,
                self.temporal,
                new_extent,
                sizes,
                backings,
                frame,
            );
            assert(before.temporal_resources@.len() == 0);
            assert(temporals_made(
                before,
                self.render_graph,
                self.temporal,
                self.image_extent,
                self.sizes,
                backings,
                frame,
            ));
        }
        Ok(true)
    }

    /// The images that have to be brought from their undefined first layout into the
    /// general one before a pass touches them: those that accumulate and denoise.
    pub fn init_temporal_images_to_general(&self) -> (images: Vec<u64>)
        requires
            self.wf(),
        ensures
            images@ == self.undefined_images(),
    {
        let accumulation = self.render_graph.temporal_backings(&self.temporal.accumulation);
        let denoising = self.render_graph.temporal_backings(&self.temporal.denoising);
        let mut images: Vec<u64> = Vec::new();
        images.push(accumulation[0]);
        images.push(accumulation[1]);
        images.push(denoising[0]);
        images.push(denoising[1]);
        proof {
            assert(images@ =~= self.undefined_images());
        }
        images
    }

    /// The object behind a copy of a temporal resource.
    pub open spec fn backing(self, index: int, copy: int) -> u64 {
        self.render_graph.temporal_resources[index].imports[copy]@.object.token()
    }

    /// Starts the next frame: both counts go up and the graph is cleared for it. Returns
    /// the count that accumulation goes by in this frame.
    pub fn advance_frame(&mut self) -> (frame_count: u32)
        requires
            old(self).wf(),
            old(self).relative_frame_count < u32::MAX,
            old(self).absolute_frame_count < usize::MAX,
        ensures
            final(self).wf(),
            old(self).advances_to(*final(self), frame_count),
    {
        let frame_count: u32 = self.relative_frame_count;
        self.relative_frame_count = frame_count + 1;
        self.absolute_frame_count = self.absolute_frame_count + 1;
        let frame: usize = self.absolute_frame_count;
        self.render_graph.reset(frame);
        frame_count
    }

    /// Declares the passes of the frame that was started, into the image `shown`. The
    /// arenas and the scene are resources of the graph already. Fails where a pipeline
    /// that is not known cannot be built, and only there.
    pub fn build_unified_graph<B: Fn(ShaderRole) -> SrResult<CachedPipeline>>(
        &mut self,
        frame_count: u32,
        shown_desc: ImageDesc,
        shown: GraphResourceImportInfo,
        arenas: [Handle<RawBuffer>; 2],
        tlas: Handle<AccelerationStructure>,
        build: &B,
    ) -> (r: SrResult<FrameDeclaration>)
        requires
            old(self).wf(),
            old(self).render_graph.next_resource_id + FRAME_RESOURCES <= u32::MAX,
            old(self).render_graph.next_pass_id + FRAME_PASSES <= u32::MAX,
            old(self).render_graph.pipeline_caches[slot_of(
                old(self).absolute_frame_count as int,
            )].entries.len() + FRAME_PASSES <= u32::MAX,
            forall|role: ShaderRole| #[trigger] build.requires((role,)),
        ensures
            *final(self) == (Renderer { render_graph: final(self).render_graph, ..*old(self) }),
            final(self).wf(),
            match r {
                Ok(declared) => {
                    let base = old(self).render_graph.next_resource_id;
                    &&& frame_declared(
                        old(self).render_graph,
                        final(self).render_graph,
                        old(self).absolute_frame_count,
                        frame_count,
                        old(self).shaders,
                        old(self).temporal,
                        old(self).image_extent,
                        shown,
                        arena_ids(arenas),
                        tlas.id,
                        *build,
                    )
                    &&& declared.source.id == base + 9
                    &&& declared.source.desc == shown_desc
                    &&& declared.pushes@ == frame_pushes(
                        base as int,
                        frame_count,
                        old(self).image_extent,
                        old(self).image_format,
                    )
                },
                Err(e) => exists|n: int| #[trigger]
                    frame_stopped(
                        old(self).render_graph,
                        final(self).render_graph,
                        old(self).absolute_frame_count,
                        frame_count,
                        old(self).shaders,
                        old(self).temporal,
                        old(self).image_extent,
                        shown,
                        arena_ids(arenas),
                        tlas.id,
                        *build,
                        n,
                        e,
                    ),
            },
    {
        build_unified_graph(
            &mut self.render_graph,
            self.absolute_frame_count,
            frame_count,
            &self.shaders,
            &self.temporal,
            self.image_extent,
            self.image_format,
            shown_desc,
            shown,
            arenas,
            tlas,
            build,
        )
    }

    /// Schedules what is to be noted of each structure that the frame builds, and of the
    /// scene's, for when the device has completed the frame that was started.
    pub fn mark_builds(&mut self, marks: Vec<E>)
        requires
            old(self).absolute_frame_count <= u64::MAX,
        ensures
            old(self).marks_builds(*final(self), marks@),
    {
        let frame: u64 = self.absolute_frame_count as u64;
        self.end_of_frame_callbacks.push_all(frame, marks);
    }

    /// The matrices of a frame as shaders read them, row by row. The matrix of the frame
    /// before stands in for the history; this frame's is kept for the next.
    pub fn frame_matrices(&mut self, camera: CameraMatrices) -> (matrices: CameraMatrices)
        ensures
            old(self).hands_matrices(*final(self), camera, matrices),
    {
        let history = self.prev_view_proj;
        self.prev_view_proj = camera.view_proj;
        CameraMatrices {
            view_inverse: transpose(camera.view_inverse),
            proj_inverse: transpose(camera.proj_inverse),
            view_proj: transpose(camera.view_proj),
            prev_view_proj: transpose(history),
        }
    }

    /// Finishes the frame that was declared and compiled: the copy of its image to where
    /// it goes, what it waits for and signals on the graph's timeline and besides, and
    /// whether to wait for it. `release` lets go of what only this frame uses, once the
    /// device has completed it. The graph parks the frame in its slot.
    pub fn finish_frame(
        &mut self,
        source: &Handle<Image>,
        output: FrameOutput,
        timeline: u64,
        release: E,
    ) -> (done: FrameSubmission)
        requires
            old(self).wf(),
            old(self).absolute_frame_count <= u64::MAX,
        ensures
            final(self).wf(),
            old(self).finishes(*final(self), source.id, output, timeline, release, done),
    {
        let frame: u64 = self.absolute_frame_count as u64;
        let plan = output.plan();
        let (before_copy, after_copy) = self.render_graph.present_transitions(
            source,
            plan.dst_final,
        );
        let submission = RenderGraph::submission(
            frame,
            timeline,
            &plan.extra_waits,
            &plan.extra_signals,
        );
        let slot_frame: usize = self.absolute_frame_count;
        self.render_graph.retire(slot_frame);
        self.end_of_frame_callbacks.push(frame, release);
        let wait = if self.settings.serialize_frames {
            Some(frame)
        } else {
            None
        };
        FrameSubmission { frame, before_copy, after_copy, submission, wait }
    }

    /// Takes the next slot of the swapchain: the slot, and the frame that has to be
    /// completed before its semaphores are used again. A renderer without a surface has
    /// none.
    pub fn next_swapchain_slot(&mut self) -> (r: SrResult<(usize, u64)>)
        requires
            old(self).swapchain matches Some(count) ==> count.frame_count < u64::MAX,
        ensures
            old(self).takes_slot(*final(self), r),
    {
        match self.swapchain {
            Some(count) => {
                let slot: usize = (count.frame_count % MAX_FRAMES_IN_FLIGHT as u64) as usize;
                let awaited: u64 = count.img_rendered_frames[slot];
                self.swapchain = Some(
                    SwapchainCount {
                        frame_count: count.frame_count + 1,
                        img_rendered_frames: count.img_rendered_frames,
                    },
                );
                Ok((slot, awaited))
            },
            None => Err(
                SrError::new_custom(
                    String::from_str("render_to_swapchain: renderer was built without a surface"),
                ),
            ),
        }
    }
}

impl<S, E> Renderer<S, E> {
    /// Notes the frame that was rendered last for a slot of the swapchain.
    pub fn note_rendered_frame(&mut self, slot: usize, frame: u64)
        requires
            slot < MAX_FRAMES_IN_FLIGHT,
        ensures
            old(self).notes_frame(*final(self), slot, frame),
    {
        if let Some(count) = self.swapchain {
            let mut img_rendered_frames = count.img_rendered_frames;
            img_rendered_frames[slot] = frame;
            self.swapchain = Some(
                SwapchainCount { frame_count: count.frame_count, img_rendered_frames },
            );
        }
    }
}

/// Where a frame goes that is rendered to the swapchain: an overlay draws on it before it
/// is shown, if there is one.
pub fn swapchain_output(with_overlay: bool, acquire: u64, ready_to_present: u64) -> (output:
    FrameOutput)
    ensures
        output == if with_overlay {
            FrameOutput::PresentOverlay { acquire }
        } else {
            FrameOutput::Present { acquire, present: ready_to_present }
        },
{
    if with_overlay {
        FrameOutput::PresentOverlay { acquire }
    } else {
        FrameOutput::Present { acquire, present: ready_to_present }
    }
}

/// A mesh outlives every frame that was started before it was unloaded: its removal is
/// held back as long as one of them, or one of the frames in flight behind them, is not
/// completed. It comes once they all are.
pub proof fn law_meshes_outlive_their_frames<S, E>(
    unloading: Renderer<S, E>,
    later: Renderer<S, E>,
    removal: E,
    at: int,
)
    requires
        unloading.absolute_frame_count + 1 + MAX_FRAMES_IN_FLIGHT <= u64::MAX,
        0 <= at < later.end_of_frame_callbacks.entries@.len(),
        later.end_of_frame_callbacks.entries@[at] == (
            (unloading.absolute_frame_count + 1 + MAX_FRAMES_IN_FLIGHT) as u64,
            removal,
        ),
    ensures
        ({
            let entries = later.end_of_frame_callbacks.entries@;
            let completed = later.completed_frame;
            if completed <= unloading.absolute_frame_count + MAX_FRAMES_IN_FLIGHT {
                waiting_of(entries, completed, entries.len()).contains(entries[at])
            } else {
                due_of(entries, completed, entries.len()).contains(removal)
            }
        }),
{
    let entries = later.end_of_frame_callbacks.entries@;
    law_each_waits_for_its_frame(entries, later.completed_frame, entries.len(), at);
}

} // verus!
