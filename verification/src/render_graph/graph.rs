//! The render graph: declared anew for every frame, compiled into an order and the
//! barriers in it, and handed on to whoever records it.

use std::collections::{HashMap, HashSet};
use std::marker::PhantomData;

use vk_sync_fork::AccessType;
use vstd::prelude::*;

use crate::error::{SrError, SrResult};
use crate::render_graph::barriers::ResourceEndState;
use crate::render_graph::pass_builder::{
    check_copy_bounds, out_of_bounds, read_ref, write_ref, BufferCopy, ComputeQueueAffinity,
    ComputeRenderPass, InternalPass, PassCommonData, PassCommonDataBuilder, RasterRenderPass,
    RaytracingRenderPass, RenderJob, TransferPass,
};
use crate::render_graph::pipeline_cache::{interns, CachedPipeline, PipelineCache, PipelineHandle};
use crate::render_graph::resource::{
    set_import_access, AccelerationStructure, BoundBuffer, BoundImage, BufferDesc,
    GraphResourceDesc, GraphResourceImportInfo, GraphResourceInfo, Handle, ImportState,
    ImportedObject, RawBuffer, Resource, ResourceDesc, TypeEquals,
};

verus! {

broadcast use vstd::std_specs::hash::group_hash_axioms;

/// How many frames may be under way at once.
pub const MAX_FRAMES_IN_FLIGHT: usize = 2;

/// A queue of the device.
#[derive(Clone, Copy, Debug, PartialEq, Eq, Structural)]
pub enum QueueRole {
    Graphics,
    AsyncCompute,
    Transfer,
}

/// A pass of any kind.
#[derive(Debug)]
pub enum AnyRenderPass {
    Rt(RaytracingRenderPass),
    Raster(RasterRenderPass),
    Compute(ComputeRenderPass),
    Transfer(TransferPass),
    Internal(InternalPass),
}

impl From<RaytracingRenderPass> for AnyRenderPass {
    fn from(pass: RaytracingRenderPass) -> (any: Self) {
        AnyRenderPass::Rt(pass)
    }
}

impl vstd::std_specs::convert::FromSpecImpl<RaytracingRenderPass> for AnyRenderPass {
    open spec fn obeys_from_spec() -> bool {
        true
    }

    open spec fn from_spec(pass: RaytracingRenderPass) -> Self {
        AnyRenderPass::Rt(pass)
    }
}

impl From<RasterRenderPass> for AnyRenderPass {
    fn from(pass: RasterRenderPass) -> (any: Self) {
        AnyRenderPass::Raster(pass)
    }
}

impl vstd::std_specs::convert::FromSpecImpl<RasterRenderPass> for AnyRenderPass {
    open spec fn obeys_from_spec() -> bool {
        true
    }

    open spec fn from_spec(pass: RasterRenderPass) -> Self {
        AnyRenderPass::Raster(pass)
    }
}

impl From<ComputeRenderPass> for AnyRenderPass {
    fn from(pass: ComputeRenderPass) -> (any: Self) {
        AnyRenderPass::Compute(pass)
    }
}

impl vstd::std_specs::convert::FromSpecImpl<ComputeRenderPass> for AnyRenderPass {
    open spec fn obeys_from_spec() -> bool {
        true
    }

    open spec fn from_spec(pass: ComputeRenderPass) -> Self {
        AnyRenderPass::Compute(pass)
    }
}

impl From<TransferPass> for AnyRenderPass {
    fn from(pass: TransferPass) -> (any: Self) {
        AnyRenderPass::Transfer(pass)
    }
}

impl vstd::std_specs::convert::FromSpecImpl<TransferPass> for AnyRenderPass {
    open spec fn obeys_from_spec() -> bool {
        true
    }

    open spec fn from_spec(pass: TransferPass) -> Self {
        AnyRenderPass::Transfer(pass)
    }
}

impl AnyRenderPass {
    /// What every pass has.
    pub open spec fn data(self) -> PassCommonData {
        match self {
            AnyRenderPass::Rt(p) => p.common,
            AnyRenderPass::Raster(p) => p.common,
            AnyRenderPass::Compute(p) => p.common,
            AnyRenderPass::Transfer(p) => p.common,
            AnyRenderPass::Internal(p) => p.common,
        }
    }

    /// The queue a pass belongs on.
    pub open spec fn queue(self) -> QueueRole {
        match self {
            AnyRenderPass::Transfer(_) => QueueRole::Transfer,
            AnyRenderPass::Compute(p) if p.queue_affinity == ComputeQueueAffinity::AsyncCompute =>
                QueueRole::AsyncCompute,
            _ => QueueRole::Graphics,
        }
    }

    /// What every pass has.
    pub fn common(&self) -> (common: &PassCommonData)
        ensures
            *common == self.data(),
    {
        match self {
            AnyRenderPass::Rt(p) => &p.common,
            AnyRenderPass::Raster(p) => &p.common,
            AnyRenderPass::Compute(p) => &p.common,
            AnyRenderPass::Transfer(p) => &p.common,
            AnyRenderPass::Internal(p) => &p.common,
        }
    }

    /// The queue a pass belongs on, by its kind: raster and ray tracing need the
    /// universal queue, buffer copies belong on the transfer queue, and the graph's own
    /// passes stay universal. Only compute has a choice; an inferred one is universal.
    pub fn queue_role(&self) -> (role: QueueRole)
        ensures
            role == self.queue(),
    {
        match self {
            AnyRenderPass::Rt(_) | AnyRenderPass::Raster(_) | AnyRenderPass::Internal(_) => {
                QueueRole::Graphics
            },
            AnyRenderPass::Transfer(_) => QueueRole::Transfer,
            AnyRenderPass::Compute(p) => match p.queue_affinity {
                ComputeQueueAffinity::AsyncCompute => QueueRole::AsyncCompute,
                ComputeQueueAffinity::Universal | ComputeQueueAffinity::Inferred => {
                    QueueRole::Graphics
                },
            },
        }
    }
}

/// The backing of a resource that lives across frames: one copy per frame in flight,
/// kept as imports that are registered into every rebuild.
#[derive(Debug)]
pub struct TemporalResource {
    /// The frame in which the backing was allocated.
    pub frame_of_creation: usize,
    pub imports: Vec<GraphResourceImportInfo>,
}

/// What a caller keeps of a temporal resource across frames.
pub struct ExportedTemporalResource<R: Resource> {
    pub index: usize,
    pub desc: <R as Resource>::Desc,
    pub marker: PhantomData<R>,
}

impl<R: Resource> Clone for ExportedTemporalResource<R> {
    fn clone(&self) -> (copy: Self)
        ensures
            copy == *self,
    {
        ExportedTemporalResource { index: self.index, desc: self.desc, marker: PhantomData }
    }
}

/// A graph of passes over resources.
pub struct RenderGraph {
    pub next_pass_id: u32,
    pub next_resource_id: u32,
    pub virtual_resources: Vec<GraphResourceInfo>,
    pub temporal_resources: Vec<TemporalResource>,
    pub passes: Vec<AnyRenderPass>,
    /// Per frame in flight, the pipelines interned so far.
    pub pipeline_caches: Vec<PipelineCache>,
    /// How the last compile left every resource.
    pub resource_end_states: HashMap<u32, ResourceEndState>,
    /// The temporal copies registered into this build: which resource, which copy, and
    /// under which id.
    pub registered_temporal: Vec<(usize, usize, u32)>,
    /// The resources this frame declares as its results.
    pub output_resources: HashSet<u32>,
    /// Per frame in flight, the passes of the frame that was submitted last. They own
    /// what the device reads, so they outlive the submission.
    pub retired_passes: Vec<Vec<AnyRenderPass>>,
    /// Per frame in flight, the resources of the frame that was submitted last.
    pub retired_resources: Vec<Vec<GraphResourceInfo>>,
    /// Copies from staging memory to record at the head of the frame.
    pub prologue_copies: Vec<(u64, Handle<RawBuffer>, BufferCopy)>,
}

/// The slot of a frame.
pub open spec fn slot_of(frame: int) -> int {
    frame % (MAX_FRAMES_IN_FLIGHT as int)
}

impl RenderGraph {
    /// There is one bin of each kind per frame in flight.
    pub open spec fn slots_wf(self) -> bool {
        &&& self.pipeline_caches.len() == MAX_FRAMES_IN_FLIGHT
        &&& self.retired_passes.len() == MAX_FRAMES_IN_FLIGHT
        &&& self.retired_resources.len() == MAX_FRAMES_IN_FLIGHT
        &&& forall|s: int|
            0 <= s < MAX_FRAMES_IN_FLIGHT ==> (#[trigger] self.pipeline_caches[s]).wf()
    }

    /// Resource ids are places in the list of resources.
    pub open spec fn ids_are_indices(self) -> bool {
        self.next_resource_id == self.virtual_resources.len()
    }

    /// There is room for one more pipeline handle.
    pub open spec fn may_intern(self, frame: usize) -> bool {
        self.pipeline_caches[slot_of(frame as int)].entries.len() <= u32::MAX
    }

    /// Interning a key in the cache of a frame's slot leads to `after`.
    pub open spec fn interns_into<F: FnOnce() -> SrResult<CachedPipeline>>(
        self,
        after: RenderGraph,
        frame: usize,
        key: u64,
        build: F,
        handle: SrResult<PipelineHandle>,
    ) -> bool {
        let slot = slot_of(frame as int);
        &&& after == (RenderGraph { pipeline_caches: after.pipeline_caches, ..self })
        &&& after.pipeline_caches.len() == self.pipeline_caches.len()
        &&& forall|s: int|
            0 <= s < self.pipeline_caches.len() && s != slot ==> #[trigger] after.pipeline_caches[s]
                == self.pipeline_caches[s]
        &&& interns(self.pipeline_caches[slot], key, build, after.pipeline_caches[slot], handle)
    }

    /// Interns a pipeline in the cache of a frame's slot.
    pub fn intern_pipeline<F: FnOnce() -> SrResult<CachedPipeline>>(
        &mut self,
        frame: usize,
        key: u64,
        build: F,
    ) -> (handle: SrResult<PipelineHandle>)
        requires
            old(self).slots_wf(),
            old(self).may_intern(frame),
            build.requires(()),
        ensures
            final(self).slots_wf(),
            old(self).interns_into(*final(self), frame, key, build, handle),
    {
        let slot: usize = frame % MAX_FRAMES_IN_FLIGHT;
        self.pipeline_caches[slot].intern(key, build)
    }

    /// A fresh pass id.
    pub fn next_pass_id(&mut self) -> (id: u32)
        requires
            old(self).next_pass_id < u32::MAX,
        ensures
            id == old(self).next_pass_id,
            *final(self) == (RenderGraph { next_pass_id: (id + 1) as u32, ..*old(self) }),
    {
        let id: u32 = self.next_pass_id;
        self.next_pass_id = id + 1;
        id
    }

    /// A fresh resource id.
    pub fn next_resource_id(&mut self) -> (id: u32)
        requires
            old(self).next_resource_id < u32::MAX,
        ensures
            id == old(self).next_resource_id,
            *final(self) == (RenderGraph { next_resource_id: (id + 1) as u32, ..*old(self) }),
    {
        let id: u32 = self.next_resource_id;
        self.next_resource_id = id + 1;
        id
    }

    /// But for what lives across frames, a graph of nothing: no frame was declared, no
    /// pipeline interned, and nothing is waiting in a bin.
    pub open spec fn is_blank(self) -> bool {
        &&& self.slots_wf()
        &&& self.next_pass_id == 0
        &&& self.next_resource_id == 0
        &&& self.virtual_resources@.len() == 0
        &&& self.passes@.len() == 0
        &&& self.resource_end_states@ == Map::<u32, ResourceEndState>::empty()
        &&& self.registered_temporal@.len() == 0
        &&& self.output_resources@ == Set::<u32>::empty()
        &&& self.prologue_copies@.len() == 0
        &&& forall|s: int|
            0 <= s < MAX_FRAMES_IN_FLIGHT ==> (#[trigger] self.retired_passes[s])@.len() == 0
        &&& forall|s: int|
            0 <= s < MAX_FRAMES_IN_FLIGHT ==> (#[trigger] self.retired_resources[s])@.len() == 0
        &&& forall|s: int|
            0 <= s < MAX_FRAMES_IN_FLIGHT ==> (#[trigger] self.pipeline_caches[s]).entries@.len()
                == 0 && self.pipeline_caches[s].by_key@ == Map::<u64, PipelineHandle>::empty()
    }

    /// A graph of nothing.
    pub fn new() -> (rg: Self)
        ensures
            rg.is_blank(),
            rg.temporal_resources@.len() == 0,
    {
        let mut pipeline_caches: Vec<PipelineCache> = Vec::new();
        let mut retired_passes: Vec<Vec<AnyRenderPass>> = Vec::new();
        let mut retired_resources: Vec<Vec<GraphResourceInfo>> = Vec::new();
        let mut slot: usize = 0;
        while slot < MAX_FRAMES_IN_FLIGHT
            invariant
                slot <= MAX_FRAMES_IN_FLIGHT,
                pipeline_caches.len() == slot,
                retired_passes.len() == slot,
                retired_resources.len() == slot,
                forall|s: int|
                    0 <= s < slot ==> (#[trigger] pipeline_caches[s]).wf()
                        && pipeline_caches[s].entries@.len() == 0 && pipeline_caches[s].by_key@
                        == Map::<u64, PipelineHandle>::empty(),
                forall|s: int| 0 <= s < slot ==> (#[trigger] retired_passes[s])@.len() == 0,
                forall|s: int| 0 <= s < slot ==> (#[trigger] retired_resources[s])@.len() == 0,
            decreases MAX_FRAMES_IN_FLIGHT - slot,
        {
            pipeline_caches.push(PipelineCache::new());
            retired_passes.push(Vec::new());
            retired_resources.push(Vec::new());
            slot = slot + 1;
        }
        RenderGraph {
            next_pass_id: 0,
            next_resource_id: 0,
            virtual_resources: Vec::new(),
            temporal_resources: Vec::new(),
            passes: Vec::new(),
            pipeline_caches,
            resource_end_states: HashMap::new(),
            registered_temporal: Vec::new(),
            output_resources: HashSet::new(),
            retired_passes,
            retired_resources,
            prologue_copies: Vec::new(),
        }
    }

    /// The slot that a frame maps to.
    pub fn current_slot(frame: usize) -> (slot: usize)
        ensures
            slot == slot_of(frame as int),
            slot < MAX_FRAMES_IN_FLIGHT,
    {
        frame % MAX_FRAMES_IN_FLIGHT
    }

    /// The frame whose completion has to be awaited before the frame after `frame` may
    /// reuse its slot, if there is one.
    pub fn wait_for_slot_reuse(frame: u64) -> (awaited: Option<u64>)
        requires
            frame < u64::MAX,
        ensures
            awaited == if frame + 1 > MAX_FRAMES_IN_FLIGHT {
                Some((frame + 1 - MAX_FRAMES_IN_FLIGHT) as u64)
            } else {
                None
            },
    {
        let upcoming: u64 = frame + 1;
        if upcoming > MAX_FRAMES_IN_FLIGHT as u64 {
            Some(upcoming - MAX_FRAMES_IN_FLIGHT as u64)
        } else {
            None
        }
    }

    /// Clearing all that belongs to one frame leads to `after`: passes, resources, copies,
    /// end states, registrations and outputs are gone, and the bins of the frame that
    /// last had this slot are empty. What lives across frames stays: the temporal
    /// backings, the pipelines, and the bins of the other slots.
    pub open spec fn resets_to(self, after: RenderGraph, frame: usize) -> bool {
        let slot = slot_of(frame as int);
        &&& after.next_pass_id == 0
        &&& after.next_resource_id == 0
        &&& after.passes@.len() == 0
        &&& after.virtual_resources@.len() == 0
        &&& after.prologue_copies@.len() == 0
        &&& after.resource_end_states@ == Map::<u32, ResourceEndState>::empty()
        &&& after.registered_temporal@.len() == 0
        &&& after.output_resources@ == Set::<u32>::empty()
        &&& after.retired_passes[slot]@.len() == 0
        &&& after.retired_resources[slot]@.len() == 0
        &&& forall|s: int|
            0 <= s < MAX_FRAMES_IN_FLIGHT && s != slot ==> (#[trigger] after.retired_passes[s])
                == self.retired_passes[s]
        &&& forall|s: int|
            0 <= s < MAX_FRAMES_IN_FLIGHT && s != slot ==> (#[trigger] after.retired_resources[s])
                == self.retired_resources[s]
        &&& after.temporal_resources == self.temporal_resources
        &&& after.pipeline_caches == self.pipeline_caches
    }

    /// Clears all that belongs to one frame, so that the next can be declared.
    pub fn reset(&mut self, frame: usize)
        requires
            old(self).slots_wf(),
        ensures
            final(self).slots_wf(),
            final(self).ids_are_indices(),
            old(self).resets_to(*final(self), frame),
    {
        let slot: usize = Self::current_slot(frame);
        self.next_pass_id = 0;
        self.next_resource_id = 0;
        self.passes = Vec::new();
        self.virtual_resources = Vec::new();
        self.prologue_copies = Vec::new();
        self.resource_end_states = HashMap::new();
        self.registered_temporal = Vec::new();
        self.output_resources = HashSet::new();
        self.retired_passes[slot] = Vec::new();
        self.retired_resources[slot] = Vec::new();
    }

    /// The same graph but for one more resource of this build.
    pub open spec fn gains_resource(self, after: RenderGraph) -> bool {
        &&& after == (RenderGraph {
            virtual_resources: after.virtual_resources,
            next_resource_id: (self.next_resource_id + 1) as u32,
            ..self
        })
        &&& after.virtual_resources@.len() == self.virtual_resources@.len() + 1
        &&& after.virtual_resources@.drop_last() == self.virtual_resources@
    }

    /// Adds a resource for the graph to make.
    pub fn create_resource<Desc>(&mut self, desc: Desc) -> (handle: Handle<
        <Desc as ResourceDesc>::Resource,
    >) where
        Desc: ResourceDesc + TypeEquals<Other = <<Desc as ResourceDesc>::Resource as Resource>::Desc>,

        requires
            old(self).next_resource_id < u32::MAX,
        ensures
            old(self).gains_resource(*final(self)),
            final(self).virtual_resources@.last() == GraphResourceInfo::Created(desc.graph_desc()),
            handle.id == old(self).next_resource_id,
            handle.desc == desc.as_other(),
            old(self).ids_are_indices() ==> final(self).ids_are_indices(),
    {
        let graph_desc = desc.to_graph_desc();
        self.virtual_resources.push(GraphResourceInfo::Created(graph_desc));
        proof {
            assert(self.virtual_resources@.drop_last() =~= old(self).virtual_resources@);
        }
        let id: u32 = self.next_resource_id();
        Handle { id, desc: TypeEquals::same(desc), marker: PhantomData }
    }

    /// Adds a resource from outside.
    pub fn import<Desc>(&mut self, desc: Desc, import: GraphResourceImportInfo) -> (handle: Handle<
        <Desc as ResourceDesc>::Resource,
    >) where
        Desc: ResourceDesc + TypeEquals<Other = <<Desc as ResourceDesc>::Resource as Resource>::Desc>,

        requires
            old(self).next_resource_id < u32::MAX,
        ensures
            old(self).gains_resource(*final(self)),
            final(self).virtual_resources@.last() == GraphResourceInfo::Imported(import),
            handle.id == old(self).next_resource_id,
            handle.desc == desc.as_other(),
            old(self).ids_are_indices() ==> final(self).ids_are_indices(),
    {
        self.virtual_resources.push(GraphResourceInfo::Imported(import));
        proof {
            assert(self.virtual_resources@.drop_last() =~= old(self).virtual_resources@);
        }
        let id: u32 = self.next_resource_id();
        Handle { id, desc: TypeEquals::same(desc), marker: PhantomData }
    }

    /// Like [`Self::import`], but for the access the resource is treated as carrying
    /// into this compile: `usage`, the state the previous frame left it in. A sampler
    /// carries none.
    pub fn import_with_usage<Desc>(
        &mut self,
        desc: Desc,
        import: GraphResourceImportInfo,
        usage: AccessType,
    ) -> (handle: Handle<<Desc as ResourceDesc>::Resource>) where
        Desc: ResourceDesc + TypeEquals<Other = <<Desc as ResourceDesc>::Resource as Resource>::Desc>,

        requires
            old(self).next_resource_id < u32::MAX,
        ensures
            old(self).gains_resource(*final(self)),
            (final(self).virtual_resources@.last() matches GraphResourceInfo::Imported(carried)
                && carried@ == import@.left_in(seq![usage])),
            handle.id == old(self).next_resource_id,
            handle.desc == desc.as_other(),
            old(self).ids_are_indices() ==> final(self).ids_are_indices(),
    {
        let mut import = import;
        let mut accesses: Vec<AccessType> = Vec::new();
        accesses.push(usage);
        proof {
            assert(accesses@ =~= seq![usage]);
        }
        set_import_access(&mut import, &accesses);
        self.import(desc, import)
    }

    /// The import that stands for one backing of a temporal resource: an image or a
    /// buffer whose contents are undefined. Samplers and acceleration structures
    /// cannot be temporal.
    pub fn temporal_backing(desc: &GraphResourceDesc, token: u64) -> (r: SrResult<
        GraphResourceImportInfo,
    >)
        ensures
            match r {
                Ok(import) => {
                    &&& desc is Image || desc is Buffer
                    &&& import@ == fresh_backing(*desc, token)
                },
                Err(e) => !(desc is Image) && !(desc is Buffer) && e.is_custom(
                    "temporal resources are only supported for images and buffers"@,
                ),
            },
    {
        let mut access_types: Vec<AccessType> = Vec::new();
        access_types.push(AccessType::Nothing);
        proof {
            assert(access_types@ =~= seq![AccessType::Nothing]);
        }
        match desc {
            GraphResourceDesc::Image(d) => {
                let resource = BoundImage { token, extent: d.extent, format: d.format };
                Ok(GraphResourceImportInfo::Image { resource, access_types })
            },
            GraphResourceDesc::Buffer(d) => {
                let resource = BoundBuffer { token, byte_size: d.byte_size };
                Ok(GraphResourceImportInfo::Buffer { resource, access_types })
            },
            GraphResourceDesc::Sampler(_) | GraphResourceDesc::RaytracingAS(_) => Err(
                SrError::new_custom(
                    String::from_str("temporal resources are only supported for images and buffers"),
                ),
            ),
        }
    }

    /// Keeps the backings of a temporal resource: `backings` are the objects of its
    /// copies. They survive [`Self::reset`], each with its contents; the token that is
    /// returned registers them into every rebuild.
    pub fn create_temporal_resource<Desc>(
        &mut self,
        desc: Desc,
        backings: [u64; MAX_FRAMES_IN_FLIGHT],
        frame: usize,
    ) -> (r: SrResult<ExportedTemporalResource<<Desc as ResourceDesc>::Resource>>) where
        Desc: ResourceDesc + TypeEquals<Other = <<Desc as ResourceDesc>::Resource as Resource>::Desc>,

        ensures
            match r {
                Ok(exported) => {
                    &&& desc.graph_desc() is Image || desc.graph_desc() is Buffer
                    &&& exported.index == old(self).temporal_resources.len()
                    &&& exported.desc == desc.as_other()
                    &&& *final(self) == (RenderGraph {
                        temporal_resources: final(self).temporal_resources,
                        ..*old(self)
                    })
                    &&& final(self).temporal_resources@.len() == old(self).temporal_resources@.len()
                        + 1
                    &&& final(self).temporal_resources@.drop_last() == old(self).temporal_resources@
                    &&& final(self).temporal_resources@.last().frame_of_creation == frame
                    &&& import_views(final(self).temporal_resources@.last().imports@) == Seq::new(
                        MAX_FRAMES_IN_FLIGHT as nat,
                        |i: int| fresh_backing(desc.graph_desc(), backings[i]),
                    )
                },
                Err(e) => {
                    &&& !(desc.graph_desc() is Image) && !(desc.graph_desc() is Buffer)
                    &&& *final(self) == *old(self)
                    &&& e.is_custom(
                        "temporal resources are only supported for images and buffers"@,
                    )
                },
            },
    {
        let graph_desc = desc.to_graph_desc();
        let mut imports: Vec<GraphResourceImportInfo> = Vec::new();
        let mut i: usize = 0;
        while i < MAX_FRAMES_IN_FLIGHT
            invariant
                i <= MAX_FRAMES_IN_FLIGHT,
                imports.len() == i,
                *self == *old(self),
                graph_desc == desc.graph_desc(),
                i > 0 ==> graph_desc is Image || graph_desc is Buffer,
                forall|k: int|
                    0 <= k < i ==> (#[trigger] imports[k])@ == fresh_backing(graph_desc, backings[k]),
            decreases MAX_FRAMES_IN_FLIGHT - i,
        {
            let import = match Self::temporal_backing(&graph_desc, backings[i]) {
                Ok(import) => import,
                Err(e) => {
                    return Err(e);
                },
            };
            imports.push(import);
            i = i + 1;
        }
        let index: usize = self.temporal_resources.len();
        self.temporal_resources.push(TemporalResource { frame_of_creation: frame, imports });
        proof {
            assert(self.temporal_resources@.drop_last() =~= old(self).temporal_resources@);
            assert(import_views(imports@) =~= Seq::new(
                MAX_FRAMES_IN_FLIGHT as nat,
                |i: int| fresh_backing(desc.graph_desc(), backings[i]),
            ));
        }
        Ok(ExportedTemporalResource { index, desc: TypeEquals::same(desc), marker: PhantomData })
    }

    /// The temporal resource a token leads to is there, with all its copies.
    pub open spec fn holds_temporal(self, index: int) -> bool {
        0 <= index < self.temporal_resources.len() && self.temporal_resources[index].imports.len()
            == MAX_FRAMES_IN_FLIGHT
    }

    /// Registers the copies of a temporal resource into this build as imports, and
    /// returns a handle for each: the copy of index `i` is the one for frames of slot
    /// `i`.
    pub fn register_temporal_resource<R: Resource>(
        &mut self,
        exported: &ExportedTemporalResource<R>,
    ) -> (handles: [Handle<R>; MAX_FRAMES_IN_FLIGHT])
        requires
            old(self).holds_temporal(exported.index as int),
            old(self).next_resource_id + MAX_FRAMES_IN_FLIGHT <= u32::MAX,
        ensures
            *final(self) == (RenderGraph {
                virtual_resources: final(self).virtual_resources,
                next_resource_id: (old(self).next_resource_id + MAX_FRAMES_IN_FLIGHT) as u32,
                registered_temporal: final(self).registered_temporal,
                ..*old(self)
            }),
            final(self).virtual_resources@.len() == old(self).virtual_resources@.len()
                + MAX_FRAMES_IN_FLIGHT,
            final(self).virtual_resources@.take(old(self).virtual_resources@.len() as int) == old(
                self,
            ).virtual_resources@,
            forall|i: int|
                0 <= i < MAX_FRAMES_IN_FLIGHT ==> imports_as(
                    #[trigger] final(self).virtual_resources@[old(self).virtual_resources@.len() + i],
                    old(self).temporal_resources[exported.index as int].imports[i]@,
                ),
            final(self).registered_temporal@ == old(self).registered_temporal@ + Seq::new(
                MAX_FRAMES_IN_FLIGHT as nat,
                |i: int| (exported.index, i as usize, (old(self).next_resource_id + i) as u32),
            ),
            forall|i: int|
                0 <= i < MAX_FRAMES_IN_FLIGHT ==> (#[trigger] handles[i]).id == old(
                    self,
                ).next_resource_id + i && handles[i].desc == exported.desc,
            old(self).ids_are_indices() ==> final(self).ids_are_indices(),
    {
        let first = self.register_copy(exported, 0);
        let second = self.register_copy(exported, 1);
        proof {
            assert(self.virtual_resources@.take(old(self).virtual_resources@.len() as int) =~= old(
                self,
            ).virtual_resources@);
            assert(self.registered_temporal@ =~= old(self).registered_temporal@ + Seq::new(
                MAX_FRAMES_IN_FLIGHT as nat,
                |i: int| (exported.index, i as usize, (old(self).next_resource_id + i) as u32),
            ));
        }
        [first, second]
    }

    /// Registers one copy of a temporal resource.
    fn register_copy<R: Resource>(
        &mut self,
        exported: &ExportedTemporalResource<R>,
        copy: usize,
    ) -> (handle: Handle<R>)
        requires
            old(self).holds_temporal(exported.index as int),
            copy < MAX_FRAMES_IN_FLIGHT,
            old(self).next_resource_id < u32::MAX,
        ensures
            *final(self) == (RenderGraph {
                virtual_resources: final(self).virtual_resources,
                next_resource_id: (old(self).next_resource_id + 1) as u32,
                registered_temporal: final(self).registered_temporal,
                ..*old(self)
            }),
            final(self).virtual_resources@.len() == old(self).virtual_resources@.len() + 1,
            final(self).virtual_resources@.drop_last() == old(self).virtual_resources@,
            imports_as(
                final(self).virtual_resources@.last(),
                old(self).temporal_resources[exported.index as int].imports[copy as int]@,
            ),
            final(self).registered_temporal@ == old(self).registered_temporal@.push(
                (exported.index, copy, old(self).next_resource_id),
            ),
            handle.id == old(self).next_resource_id,
            handle.desc == exported.desc,
    {
        let import = self.temporal_resources[exported.index].imports[copy].duplicate();
        let id: u32 = self.next_resource_id();
        self.virtual_resources.push(GraphResourceInfo::Imported(import));
        self.registered_temporal.push((exported.index, copy, id));
        proof {
            assert(self.virtual_resources@.drop_last() =~= old(self).virtual_resources@);
        }
        Handle { id, desc: exported.desc, marker: PhantomData }
    }

    /// The frame in which the backing of a temporal resource was allocated.
    pub fn temporal_frame_of_creation<R: Resource>(
        &self,
        exported: &ExportedTemporalResource<R>,
    ) -> (frame: usize)
        requires
            exported.index < self.temporal_resources.len(),
        ensures
            frame == self.temporal_resources[exported.index as int].frame_of_creation,
    {
        self.temporal_resources[exported.index].frame_of_creation
    }

    /// The objects that back the copies of a temporal resource.
    pub fn temporal_backings<R: Resource>(
        &self,
        exported: &ExportedTemporalResource<R>,
    ) -> (backings: [u64; MAX_FRAMES_IN_FLIGHT])
        requires
            self.holds_temporal(exported.index as int),
        ensures
            forall|i: int|
                0 <= i < MAX_FRAMES_IN_FLIGHT ==> #[trigger] backings[i]
                    == self.temporal_resources[exported.index as int].imports[i]@.object.token(),
    {
        let imports = &self.temporal_resources[exported.index].imports;
        [imports[0].token(), imports[1].token()]
    }

    /// Drops every temporal backing. Tokens lead nowhere afterwards.
    pub fn clear_temporal_resources(&mut self)
        ensures
            final(self).temporal_resources@.len() == 0,
            *final(self) == (RenderGraph {
                temporal_resources: final(self).temporal_resources,
                ..*old(self)
            }),
    {
        self.temporal_resources = Vec::new();
    }

    /// Adds a pass behind those that are there.
    pub fn add_render_pass(&mut self, render_pass: AnyRenderPass)
        ensures
            final(self).passes@ == old(self).passes@.push(render_pass),
            *final(self) == (RenderGraph { passes: final(self).passes, ..*old(self) }),
    {
        self.passes.push(render_pass);
    }

    /// Adds a pass that builds an acceleration structure: it writes `build_target`, so
    /// that consumers are ordered after it, and reads each of `deps`, so that their
    /// builds are ordered before it. It is compute work without a preferred queue.
    pub fn add_as_build_pass(
        &mut self,
        name: &str,
        build_target: &Handle<AccelerationStructure>,
        deps: &Vec<Handle<AccelerationStructure>>,
        job: u64,
        scratch: u64,
    ) -> (r: SrResult<()>)
        requires
            old(self).next_pass_id < u32::MAX,
        ensures
            r is Ok,
            *final(self) == (RenderGraph {
                next_pass_id: (old(self).next_pass_id + 1) as u32,
                passes: final(self).passes,
                ..*old(self)
            }),
            final(self).passes@.len() == old(self).passes@.len() + 1,
            final(self).passes@.drop_last() == old(self).passes@,
            ({
                let pass = final(self).passes@.last();
                let data = pass.data();
                &&& pass matches AnyRenderPass::Compute(p) && p.shaders is None && p.queue_affinity
                    == ComputeQueueAffinity::Inferred
                &&& data.name@ == name@
                &&& data.id == old(self).next_pass_id
                &&& data.render == Some(RenderJob::BuildAccelerationStructure { job, scratch })
                &&& !data.output
                &&& data.write@ == seq![
                    write_ref(build_target.id, AccessType::AccelerationStructureBuildWrite),
                ]
                &&& data.read@ == Seq::new(
                    deps@.len(),
                    |i: int| read_ref(deps[i].id, AccessType::AccelerationStructureBuildRead),
                )
            }),
    {
        let mut common = PassCommonDataBuilder::new(self, name);
        let ghost numbered = *self;
        match common.write(build_target, AccessType::AccelerationStructureBuildWrite) {
            Ok(_) => {},
            Err(e) => {
                return Err(e);
            },
        }
        let ghost start = common.pass_common_data;
        let mut i: usize = 0;
        while i < deps.len()
            invariant
                i <= deps.len(),
                *self == numbered,
                common.pass_common_data.same_but_read(start),
                common.pass_common_data.read@ == Seq::new(
                    i as nat,
                    |k: int| read_ref(deps[k].id, AccessType::AccelerationStructureBuildRead),
                ),
            decreases deps.len() - i,
        {
            match common.read(&deps[i], AccessType::AccelerationStructureBuildRead) {
                Ok(_) => {},
                Err(e) => {
                    return Err(e);
                },
            }
            i = i + 1;
            proof {
                assert(common.pass_common_data.read@ =~= Seq::new(
                    i as nat,
                    |k: int| read_ref(deps[k].id, AccessType::AccelerationStructureBuildRead),
                ));
            }
        }
        common.render(RenderJob::BuildAccelerationStructure { job, scratch });
        self.add_render_pass(
            AnyRenderPass::Compute(
                ComputeRenderPass {
                    common: common.build(),
                    shaders: None,
                    queue_affinity: ComputeQueueAffinity::Inferred,
                },
            ),
        );
        proof {
            assert(self.passes@.drop_last() =~= old(self).passes@);
            assert(self.passes@.last().data().write@ =~= seq![
                write_ref(build_target.id, AccessType::AccelerationStructureBuildWrite),
            ]);
        }
        Ok(())
    }

    /// Declares a resource a result of this frame: whatever writes it is kept, and
    /// everything that feeds those writes.
    pub fn mark_output<R: Resource>(&mut self, handle: &Handle<R>)
        ensures
            final(self).output_resources@ == old(self).output_resources@.insert(handle.id),
            *final(self) == (RenderGraph {
                output_resources: final(self).output_resources,
                ..*old(self)
            }),
    {
        self.output_resources.insert(handle.id);
    }

    /// How the last compile left every resource.
    pub fn resource_end_states(&self) -> (states: &HashMap<u32, ResourceEndState>)
        ensures
            *states == self.resource_end_states,
    {
        &self.resource_end_states
    }

    /// How the last compile left one resource.
    pub fn end_state<R: Resource>(&self, handle: &Handle<R>) -> (state: Option<&ResourceEndState>)
        ensures
            match state {
                Some(end) => self.resource_end_states@.contains_key(handle.id) && *end
                    == self.resource_end_states@[handle.id],
                None => !self.resource_end_states@.contains_key(handle.id),
            },
    {
        self.resource_end_states.get(&handle.id)
    }

    /// Hands over copies from staging memory, each with the size of its source, to be
    /// recorded at the head of this frame. A copy that leaves its source is refused;
    /// those before it stay.
    pub fn add_prologue_buffer_copies(
        &mut self,
        copies: &Vec<(u64, u64, Handle<RawBuffer>, BufferCopy)>,
    ) -> (r: SrResult<()>)
        ensures
            *final(self) == (RenderGraph {
                prologue_copies: final(self).prologue_copies,
                ..*old(self)
            }),
            ({
                let good = sound_copies(copies@, copies@.len());
                &&& copy_views(final(self).prologue_copies@) == copy_views(
                    old(self).prologue_copies@,
                ) + staged_views(copies@.take(good as int))
                &&& match r {
                    Ok(_) => good == copies@.len(),
                    Err(e) => good < copies@.len() && e.is_custom(
                        out_of_bounds(
                            "source"@,
                            "arena staging"@,
                            copies@[good as int].1,
                            copies@[good as int].3.src_offset,
                            copies@[good as int].3.size,
                        ),
                    ),
                }
            }),
    {
        let mut i: usize = 0;
        proof {
            assert(copy_views(self.prologue_copies@) =~= copy_views(old(self).prologue_copies@)
                + staged_views(copies@.take(0)));
        }
        while i < copies.len()
            invariant
                i <= copies.len(),
                *self == (RenderGraph { prologue_copies: self.prologue_copies, ..*old(self) }),
                sound_copies(copies@, i as nat) == i,
                copy_views(self.prologue_copies@) == copy_views(old(self).prologue_copies@)
                    + staged_views(copies@.take(i as int)),
            decreases copies.len() - i,
        {
            let copy = &copies[i];
            match check_copy_bounds("source", "arena staging", copy.1, copy.3.src_offset, &copy.3) {
                Ok(_) => {},
                Err(e) => {
                    proof {
                        lemma_sound_copies_stop(copies@, i as nat, copies@.len());
                    }
                    return Err(e);
                },
            }
            let dst = Handle { id: copy.2.id, desc: copy.2.desc, marker: PhantomData };
            let ghost before = self.prologue_copies@;
            let ghost added = (copy.0, copy.2.id, copy.2.desc, copy.3);
            self.prologue_copies.push((copy.0, dst, copy.3));
            i = i + 1;
            proof {
                assert(copy_views(self.prologue_copies@) =~= copy_views(before).push(added));
                assert(staged_views(copies@.take(i as int)) =~= staged_views(
                    copies@.take(i - 1),
                ).push(added));
                assert(copy_views(self.prologue_copies@) =~= copy_views(
                    old(self).prologue_copies@,
                ) + staged_views(copies@.take(i as int)));
            }
        }
        proof {
            assert(copies@.take(i as int) =~= copies@);
        }
        Ok(())
    }
}

/// The views of imports.
pub open spec fn import_views(imports: Seq<GraphResourceImportInfo>) -> Seq<ImportState> {
    Seq::new(imports.len(), |i: int| imports[i]@)
}

/// A temporal backing of undefined contents, for an image or a buffer.
pub open spec fn fresh_backing(desc: GraphResourceDesc, token: u64) -> ImportState {
    ImportState {
        object: match desc {
            GraphResourceDesc::Image(d) => ImportedObject::Image(
                BoundImage { token, extent: d.extent, format: d.format },
            ),
            GraphResourceDesc::Buffer(d) => ImportedObject::Buffer(
                BoundBuffer { token, byte_size: d.byte_size },
            ),
            _ => ImportedObject::Sampler(token),
        },
        accesses: seq![AccessType::Nothing],
    }
}

/// A resource that is the import `state`.
pub open spec fn imports_as(info: GraphResourceInfo, state: ImportState) -> bool {
    info matches GraphResourceInfo::Imported(import) && import@ == state
}

/// A copy that waits to be recorded: where from, the buffer it goes to, which bytes.
pub open spec fn copy_views(copies: Seq<(u64, Handle<RawBuffer>, BufferCopy)>) -> Seq<
    (u64, u32, BufferDesc, BufferCopy),
> {
    Seq::new(copies.len(), |i: int| (copies[i].0, copies[i].1.id, copies[i].1.desc, copies[i].2))
}

/// The same of copies that come with the size of their source.
pub open spec fn staged_views(copies: Seq<(u64, u64, Handle<RawBuffer>, BufferCopy)>) -> Seq<
    (u64, u32, BufferDesc, BufferCopy),
> {
    Seq::new(copies.len(), |i: int| (copies[i].0, copies[i].2.id, copies[i].2.desc, copies[i].3))
}

/// How many of the first `n` copies come before the first that leaves its source.
pub open spec fn sound_copies(
    copies: Seq<(u64, u64, Handle<RawBuffer>, BufferCopy)>,
    n: nat,
) -> nat
    decreases n,
{
    if n == 0 {
        0
    } else {
        let before = sound_copies(copies, (n - 1) as nat);
        if before == n - 1 && copies[n - 1].3.src_offset + copies[n - 1].3.size <= copies[n - 1].1 {
            n
        } else {
            before
        }
    }
}

proof fn lemma_sound_copies_stop(
    copies: Seq<(u64, u64, Handle<RawBuffer>, BufferCopy)>,
    i: nat,
    n: nat,
)
    requires
        i < n,
        sound_copies(copies, i) == i,
        copies[i as int].3.src_offset + copies[i as int].3.size > copies[i as int].1,
    ensures
        sound_copies(copies, n) == i,
    decreases n,
{
    if n > i + 1 {
        lemma_sound_copies_stop(copies, i, (n - 1) as nat);
    }
}

} // verus!
