//! The objects bound to a frame's resources: who finds them, which barriers they need,
//! and what their usage asks for.

use std::collections::HashMap;

use vk_sync_fork::AccessType;
use vstd::prelude::*;

use crate::error::{ErrorSource, GraphError, SrError, SrResult};
use crate::render_graph::access::{copy_accesses, image_layout_of, optimal_layout, LAYOUT_UNDEFINED};
use crate::render_graph::alias::Placement;
use crate::render_graph::barriers::ResourceBarrier;
use crate::render_graph::pass_builder::{BufferCopy, CopyEnd};
use crate::render_graph::resource::{
    BoundBuffer, BoundImage, GraphResourceDesc, GraphResourceImportInfo, GraphResourceInfo, Handle,
    Image,
};
use crate::text::{decimal, push_decimal};

verus! {

broadcast use vstd::std_specs::hash::group_hash_axioms;

/// A chunk of memory that backs one bucket.
#[derive(Clone, Copy, Debug, PartialEq, Eq, Structural)]
pub struct SlotAllocation {
    pub size: u64,
    /// Where the chunk begins in its memory object.
    pub offset: u64,
    /// The memory object, by its handle.
    pub memory: u64,
}

/// What is bound to the resources of one frame in flight.
pub struct TransientResources {
    /// How many resources the frame has.
    pub resource_count: usize,
    pub external_images: HashMap<u32, BoundImage>,
    pub external_buffers: HashMap<u32, BoundBuffer>,
    pub external_samplers: HashMap<u32, u64>,
    pub external_raytracing_ac: HashMap<u32, u64>,
    /// One per resource, even where several share memory.
    pub transient_images: HashMap<u32, BoundImage>,
    pub transient_buffers: HashMap<u32, BoundBuffer>,
    /// Samplers have no memory to share.
    pub transient_samplers: HashMap<u32, u64>,
    /// One per bucket.
    pub slot_allocations: Vec<SlotAllocation>,
    /// Where each image and buffer landed.
    pub placements: HashMap<u32, Placement>,
    /// The barriers that were issued, in the order of the passes they precede.
    pub recorded_barriers: Vec<(usize, Vec<ResourceBarrier>)>,
}

// ---------------------------------------------------------------------------
// Binding
// ---------------------------------------------------------------------------

/// Tokens of the objects made for the graph's own resources.
pub type Objects = Map<u32, u64>;

/// The image that stands for a resource of the graph's own.
pub open spec fn made_image(
    infos: Seq<GraphResourceInfo>,
    placements: Map<u32, Placement>,
    objects: Objects,
    id: u32,
) -> Option<BoundImage> {
    match infos[id as int] {
        GraphResourceInfo::Created(GraphResourceDesc::Image(d)) => if placements.contains_key(id)
            && objects.contains_key(id) {
            Some(BoundImage { token: objects[id], extent: d.extent, format: d.format })
        } else {
            None
        },
        _ => None,
    }
}

/// The buffer that stands for a resource of the graph's own.
pub open spec fn made_buffer(
    infos: Seq<GraphResourceInfo>,
    placements: Map<u32, Placement>,
    objects: Objects,
    id: u32,
) -> Option<BoundBuffer> {
    match infos[id as int] {
        GraphResourceInfo::Created(GraphResourceDesc::Buffer(d)) => if placements.contains_key(id)
            && objects.contains_key(id) {
            Some(BoundBuffer { token: objects[id], byte_size: d.byte_size })
        } else {
            None
        },
        _ => None,
    }
}

/// The sampler that stands for a resource of the graph's own.
pub open spec fn made_sampler(
    infos: Seq<GraphResourceInfo>,
    objects: Objects,
    id: u32,
) -> Option<u64> {
    match infos[id as int] {
        GraphResourceInfo::Created(GraphResourceDesc::Sampler(_)) => if objects.contains_key(id) {
            Some(objects[id])
        } else {
            None
        },
        _ => None,
    }
}

/// The image that a resource imports.
pub open spec fn imported_image(infos: Seq<GraphResourceInfo>, id: u32) -> Option<BoundImage> {
    match infos[id as int] {
        GraphResourceInfo::Imported(GraphResourceImportInfo::Image { resource, .. }) => Some(
            resource,
        ),
        _ => None,
    }
}

/// The buffer that a resource imports.
pub open spec fn imported_buffer(infos: Seq<GraphResourceInfo>, id: u32) -> Option<BoundBuffer> {
    match infos[id as int] {
        GraphResourceInfo::Imported(GraphResourceImportInfo::Buffer { resource, .. }) => Some(
            resource,
        ),
        _ => None,
    }
}

/// The sampler that a resource imports.
pub open spec fn imported_sampler(infos: Seq<GraphResourceInfo>, id: u32) -> Option<u64> {
    match infos[id as int] {
        GraphResourceInfo::Imported(GraphResourceImportInfo::Sampler { resource }) => Some(
            resource,
        ),
        _ => None,
    }
}

/// The acceleration structure that a resource imports.
pub open spec fn imported_structure(infos: Seq<GraphResourceInfo>, id: u32) -> Option<u64> {
    match infos[id as int] {
        GraphResourceInfo::Imported(
            GraphResourceImportInfo::RayTracingAcceleration { resource, .. },
        ) => Some(resource),
        _ => None,
    }
}

/// A map of ids below `n`.
pub open spec fn keys_below<V>(map: Map<u32, V>, n: int) -> bool {
    forall|id: u32| #[trigger] map.contains_key(id) ==> id < n
}

/// A map that holds exactly what `found` gives for the ids below `n`.
pub open spec fn holds<V>(map: Map<u32, V>, found: spec_fn(u32) -> Option<V>, n: int) -> bool {
    &&& forall|id: u32| #[trigger] map.contains_key(id) <==> id < n && found(id) is Some
    &&& forall|id: u32| #[trigger] map.contains_key(id) ==> found(id) == Some(map[id])
}

impl TransientResources {
    /// Resource ids lie below the count, and buckets have been allocated.
    pub open spec fn wf(self) -> bool {
        &&& self.resource_count <= u32::MAX
        &&& keys_below(self.external_images@, self.resource_count as int)
        &&& keys_below(self.external_buffers@, self.resource_count as int)
        &&& keys_below(self.external_samplers@, self.resource_count as int)
        &&& keys_below(self.external_raytracing_ac@, self.resource_count as int)
        &&& keys_below(self.transient_images@, self.resource_count as int)
        &&& keys_below(self.transient_buffers@, self.resource_count as int)
        &&& keys_below(self.transient_samplers@, self.resource_count as int)
        &&& forall|id: u32| #[trigger]
            self.placements@.contains_key(id) ==> id < self.resource_count
                && self.placements@[id].bucket < self.slot_allocations.len()
                && self.placements@[id].offset + self.placements@[id].size <= u64::MAX
    }

    /// What is bound for the first `n` resources.
    pub open spec fn binds(
        self,
        infos: Seq<GraphResourceInfo>,
        placements: Map<u32, Placement>,
        objects: Objects,
        n: int,
    ) -> bool {
        &&& holds(
            self.transient_images@,
            |id: u32| made_image(infos, placements, objects, id),
            n,
        )
        &&& holds(
            self.transient_buffers@,
            |id: u32| made_buffer(infos, placements, objects, id),
            n,
        )
        &&& holds(self.transient_samplers@, |id: u32| made_sampler(infos, objects, id), n)
        &&& holds(self.external_images@, |id: u32| imported_image(infos, id), n)
        &&& holds(self.external_buffers@, |id: u32| imported_buffer(infos, id), n)
        &&& holds(self.external_samplers@, |id: u32| imported_sampler(infos, id), n)
        &&& holds(self.external_raytracing_ac@, |id: u32| imported_structure(infos, id), n)
    }

    /// Nothing is bound.
    pub fn new() -> (tr: Self)
        ensures
            tr.wf(),
            tr.resource_count == 0,
            tr.external_images@ == Map::<u32, BoundImage>::empty(),
            tr.external_buffers@ == Map::<u32, BoundBuffer>::empty(),
            tr.external_samplers@ == Map::<u32, u64>::empty(),
            tr.external_raytracing_ac@ == Map::<u32, u64>::empty(),
            tr.transient_images@ == Map::<u32, BoundImage>::empty(),
            tr.transient_buffers@ == Map::<u32, BoundBuffer>::empty(),
            tr.transient_samplers@ == Map::<u32, u64>::empty(),
            tr.slot_allocations@.len() == 0,
            tr.placements@ == Map::<u32, Placement>::empty(),
            tr.recorded_barriers@.len() == 0,
    {
        TransientResources {
            resource_count: 0,
            external_images: HashMap::new(),
            external_buffers: HashMap::new(),
            external_samplers: HashMap::new(),
            external_raytracing_ac: HashMap::new(),
            transient_images: HashMap::new(),
            transient_buffers: HashMap::new(),
            transient_samplers: HashMap::new(),
            slot_allocations: Vec::new(),
            placements: HashMap::new(),
            recorded_barriers: Vec::new(),
        }
    }

    /// Binds a frame: the graph's own resources to the objects made for them, imports to
    /// what they import. Images and buffers without a place stay unbound, and so do
    /// acceleration structures of the graph's own.
    pub fn populate(
        infos: &Vec<GraphResourceInfo>,
        placements: HashMap<u32, Placement>,
        slot_allocations: Vec<SlotAllocation>,
        objects: &HashMap<u32, u64>,
    ) -> (tr: Self)
        requires
            infos.len() <= u32::MAX,
            forall|id: u32| #[trigger]
                placements@.contains_key(id) ==> id < infos.len() && placements@[id].bucket
                    < slot_allocations.len() && placements@[id].offset + placements@[id].size
                    <= u64::MAX,
        ensures
            tr.wf(),
            tr.resource_count == infos.len(),
            tr.placements == placements,
            tr.slot_allocations == slot_allocations,
            tr.recorded_barriers@.len() == 0,
            tr.binds(infos@, placements@, objects@, infos.len() as int),
    {
        let mut tr = Self::new();
        let mut i: usize = 0;
        while i < infos.len()
            invariant
                i <= infos.len() <= u32::MAX,
                tr.binds(infos@, placements@, objects@, i as int),
                tr.recorded_barriers@.len() == 0,
            decreases infos.len() - i,
        {
            let id: u32 = i as u32;
            let ghost before = tr;
            proof {
                assert(infos@[id as int] == infos@[i as int]);
            }
            match &infos[i] {
                GraphResourceInfo::Created(GraphResourceDesc::Image(d)) => {
                    if placements.contains_key(&id) {
                        match objects.get(&id) {
                            Some(token) => {
                                let image = BoundImage {
                                    token: *token,
                                    extent: d.extent,
                                    format: d.format,
                                };
                                tr.transient_images.insert(id, image);
                            },
                            None => {},
                        }
                    }
                },
                GraphResourceInfo::Created(GraphResourceDesc::Buffer(d)) => {
                    if placements.contains_key(&id) {
                        match objects.get(&id) {
                            Some(token) => {
                                let buffer = BoundBuffer { token: *token, byte_size: d.byte_size };
                                tr.transient_buffers.insert(id, buffer);
                            },
                            None => {},
                        }
                    }
                },
                GraphResourceInfo::Created(GraphResourceDesc::Sampler(_)) => {
                    match objects.get(&id) {
                        Some(token) => {
                            tr.transient_samplers.insert(id, *token);
                        },
                        None => {},
                    }
                },
                GraphResourceInfo::Created(GraphResourceDesc::RaytracingAS(_)) => {},
                GraphResourceInfo::Imported(GraphResourceImportInfo::Image { resource, .. }) => {
                    tr.external_images.insert(id, *resource);
                },
                GraphResourceInfo::Imported(GraphResourceImportInfo::Buffer { resource, .. }) => {
                    tr.external_buffers.insert(id, *resource);
                },
                GraphResourceInfo::Imported(GraphResourceImportInfo::Sampler { resource }) => {
                    tr.external_samplers.insert(id, *resource);
                },
                GraphResourceInfo::Imported(
                    GraphResourceImportInfo::RayTracingAcceleration { resource, .. },
                ) => {
                    tr.external_raytracing_ac.insert(id, *resource);
                },
            }
            proof {
                lemma_holds_next(
                    before.transient_images@,
                    tr.transient_images@,
                    |id: u32| made_image(infos@, placements@, objects@, id),
                    id,
                );
                lemma_holds_next(
                    before.transient_buffers@,
                    tr.transient_buffers@,
                    |id: u32| made_buffer(infos@, placements@, objects@, id),
                    id,
                );
                lemma_holds_next(
                    before.transient_samplers@,
                    tr.transient_samplers@,
                    |id: u32| made_sampler(infos@, objects@, id),
                    id,
                );
                lemma_holds_next(
                    before.external_images@,
                    tr.external_images@,
                    |id: u32| imported_image(infos@, id),
                    id,
                );
                lemma_holds_next(
                    before.external_buffers@,
                    tr.external_buffers@,
                    |id: u32| imported_buffer(infos@, id),
                    id,
                );
                lemma_holds_next(
                    before.external_samplers@,
                    tr.external_samplers@,
                    |id: u32| imported_sampler(infos@, id),
                    id,
                );
                lemma_holds_next(
                    before.external_raytracing_ac@,
                    tr.external_raytracing_ac@,
                    |id: u32| imported_structure(infos@, id),
                    id,
                );
            }
            i = i + 1;
        }
        tr.resource_count = infos.len();
        tr.placements = placements;
        tr.slot_allocations = slot_allocations;
        tr
    }
}

/// One more id: its entry where something is found for it, no change where nothing is.
proof fn lemma_holds_next<V>(
    before: Map<u32, V>,
    after: Map<u32, V>,
    found: spec_fn(u32) -> Option<V>,
    id: u32,
)
    requires
        holds(before, found, id as int),
        match found(id) {
            Some(value) => after == before.insert(id, value),
            None => after == before,
        },
    ensures
        holds(after, found, id + 1),
{
}

// ---------------------------------------------------------------------------
// Lookups
// ---------------------------------------------------------------------------

impl TransientResources {
    /// The image bound to a resource, made for the graph or imported.
    pub open spec fn image_of(self, id: u32) -> Option<BoundImage> {
        if self.transient_images@.contains_key(id) {
            Some(self.transient_images@[id])
        } else if self.external_images@.contains_key(id) {
            Some(self.external_images@[id])
        } else {
            None
        }
    }

    /// The buffer bound to a resource, made for the graph or imported.
    pub open spec fn buffer_of(self, id: u32) -> Option<u64> {
        if self.transient_buffers@.contains_key(id) {
            Some(self.transient_buffers@[id].token)
        } else if self.external_buffers@.contains_key(id) {
            Some(self.external_buffers@[id].token)
        } else {
            None
        }
    }

    /// The image bound to a resource.
    pub fn image_by_id(&self, id: u32) -> (image: Option<BoundImage>)
        ensures
            image == self.image_of(id),
    {
        match self.transient_images.get(&id) {
            Some(image) => Some(*image),
            None => match self.external_images.get(&id) {
                Some(image) => Some(*image),
                None => None,
            },
        }
    }

    /// The image bound to a handle.
    pub fn image(&self, handle: &Handle<Image>) -> (r: SrResult<BoundImage>)
        ensures
            match r {
                Ok(image) => self.image_of(handle.id) == Some(image),
                Err(e) => self.image_of(handle.id) is None && e.is_custom(no_image(handle.id)),
            },
    {
        let id: u32 = handle.id;
        match self.image_by_id(id) {
            Some(image) => Ok(image),
            None => {
                let mut text = String::from_str("render graph: no image bound for resource id ");
                push_decimal(&mut text, id as u64);
                text.append(" (not created or imported as an image)");
                proof {
                    assert(text@ =~= no_image(id));
                }
                Err(SrError::new_custom(text))
            },
        }
    }

    /// The buffer bound to a resource.
    pub fn buffer_by_id(&self, id: u32) -> (buffer: Option<u64>)
        ensures
            buffer == self.buffer_of(id),
    {
        match self.transient_buffers.get(&id) {
            Some(buffer) => Some(buffer.token),
            None => match self.external_buffers.get(&id) {
                Some(buffer) => Some(buffer.token),
                None => None,
            },
        }
    }

    /// The buffer at one end of a copy.
    pub open spec fn end_of(self, end: CopyEnd) -> Option<u64> {
        match end {
            CopyEnd::Raw(buffer) => Some(buffer),
            CopyEnd::Handle(id) => self.buffer_of(id),
        }
    }

    /// The buffer at one end of a copy. A resource that no buffer is bound to is refused.
    pub fn resolve(&self, end: &CopyEnd) -> (r: SrResult<u64>)
        ensures
            match r {
                Ok(buffer) => self.end_of(*end) == Some(buffer),
                Err(e) => self.end_of(*end) is None && e.is_graph_error(
                    GraphError::InvalidResourceRef,
                    no_buffer(end->Handle_0),
                ),
            },
    {
        match end {
            CopyEnd::Raw(buffer) => Ok(*buffer),
            CopyEnd::Handle(id) => match self.buffer_by_id(*id) {
                Some(buffer) => Ok(buffer),
                None => {
                    let mut text = String::from_str(
                        "transfer pass copies to/from unknown buffer resource id ",
                    );
                    push_decimal(&mut text, *id as u64);
                    Err(SrError::new(ErrorSource::RenderGraph(GraphError::InvalidResourceRef), text))
                },
            },
        }
    }

    /// The first `n` copies with their buffers found.
    pub open spec fn resolved(self, copies: Seq<(CopyEnd, CopyEnd, BufferCopy)>) -> Seq<
        (u64, u64, BufferCopy),
    > {
        Seq::new(
            copies.len(),
            |i: int| (self.end_of(copies[i].0)->0, self.end_of(copies[i].1)->0, copies[i].2),
        )
    }

    /// Both ends of a copy are found.
    pub open spec fn resolves(self, copy: (CopyEnd, CopyEnd, BufferCopy)) -> bool {
        self.end_of(copy.0) is Some && self.end_of(copy.1) is Some
    }

    /// The first copy with an end that is not found is at `i`.
    pub open spec fn first_unresolved(
        self,
        copies: Seq<(CopyEnd, CopyEnd, BufferCopy)>,
        i: int,
    ) -> bool {
        &&& 0 <= i < copies.len()
        &&& !self.resolves(copies[i])
        &&& forall|k: int| 0 <= k < i ==> self.resolves(#[trigger] copies[k])
    }

    /// The end of a copy that is not found, its source where both are not.
    pub open spec fn lost_end(self, copy: (CopyEnd, CopyEnd, BufferCopy)) -> CopyEnd {
        if self.end_of(copy.0) is None {
            copy.0
        } else {
            copy.1
        }
    }

    /// The copies of a pass with their buffers found, in their order.
    pub fn resolve_copies(&self, copies: &Vec<(CopyEnd, CopyEnd, BufferCopy)>) -> (r: SrResult<
        Vec<(u64, u64, BufferCopy)>,
    >)
        ensures
            match r {
                Ok(found) => {
                    &&& forall|i: int| 0 <= i < copies@.len() ==> self.resolves(#[trigger] copies@[i])
                    &&& found@ == self.resolved(copies@)
                },
                Err(e) => exists|i: int| #[trigger]
                    self.first_unresolved(copies@, i) && e.is_graph_error(
                        GraphError::InvalidResourceRef,
                        no_buffer(self.lost_end(copies@[i])->Handle_0),
                    ),
            },
    {
        let mut found: Vec<(u64, u64, BufferCopy)> = Vec::with_capacity(copies.len());
        let mut i: usize = 0;
        while i < copies.len()
            invariant
                i <= copies.len(),
                forall|k: int| 0 <= k < i ==> self.resolves(#[trigger] copies@[k]),
                found@ == self.resolved(copies@.take(i as int)),
            decreases copies.len() - i,
        {
            let src: u64 = match self.resolve(&copies[i].0) {
                Ok(buffer) => buffer,
                Err(e) => {
                    proof {
                        assert(self.first_unresolved(copies@, i as int));
                    }
                    return Err(e);
                },
            };
            let dst: u64 = match self.resolve(&copies[i].1) {
                Ok(buffer) => buffer,
                Err(e) => {
                    proof {
                        assert(self.first_unresolved(copies@, i as int));
                    }
                    return Err(e);
                },
            };
            found.push((src, dst, copies[i].2));
            i = i + 1;
            proof {
                assert(found@ =~= self.resolved(copies@.take(i as int)));
            }
        }
        proof {
            assert(copies@.take(i as int) =~= copies@);
        }
        Ok(found)
    }
}

/// Where a resource is bound in its memory object: where its chunk begins, and its place
/// in it.
pub fn bind_offset(chunk: &SlotAllocation, place: &Placement) -> (base: u64)
    requires
        chunk.offset + place.offset <= u64::MAX,
    ensures
        base == chunk.offset + place.offset,
{
    chunk.offset + place.offset
}

/// What is said of a handle that no image is bound to.
pub open spec fn no_image(id: u32) -> Seq<char> {
    "render graph: no image bound for resource id "@ + decimal(id as nat)
        + " (not created or imported as an image)"@
}

/// What is said of a copy whose buffer is not found.
pub open spec fn no_buffer(id: u32) -> Seq<char> {
    "transfer pass copies to/from unknown buffer resource id "@ + decimal(id as nat)
}

// ---------------------------------------------------------------------------
// Barriers as they are issued
// ---------------------------------------------------------------------------

/// The layout that one side of a barrier implies. Every access of an epoch agrees on
/// it, so the first speaks for all.
pub open spec fn layout_of_side(accesses: Seq<AccessType>) -> i32 {
    if accesses.len() > 0 {
        optimal_layout(accesses[0])
    } else {
        LAYOUT_UNDEFINED
    }
}

/// The layout that one side of a barrier implies.
pub fn epoch_layout(accesses: &Vec<AccessType>) -> (layout: i32)
    ensures
        layout == layout_of_side(accesses@),
{
    if accesses.len() > 0 {
        image_layout_of(accesses[0])
    } else {
        LAYOUT_UNDEFINED
    }
}

// Image aspects and depth formats by their Vulkan numbers.
pub const ASPECT_COLOR: u32 = 1;

pub const ASPECT_DEPTH: u32 = 2;

pub const ASPECT_STENCIL: u32 = 4;

pub const ASPECT_DEPTH_STENCIL: u32 = 6;

pub const FORMAT_D16_UNORM: i32 = 124;

pub const FORMAT_X8_D24_UNORM_PACK32: i32 = 125;

pub const FORMAT_D32_SFLOAT: i32 = 126;

pub const FORMAT_S8_UINT: i32 = 127;

pub const FORMAT_D16_UNORM_S8_UINT: i32 = 128;

pub const FORMAT_D24_UNORM_S8_UINT: i32 = 129;

pub const FORMAT_D32_SFLOAT_S8_UINT: i32 = 130;

/// The aspects that an image of a format has.
pub open spec fn aspects(format: i32) -> u32 {
    if format == FORMAT_D16_UNORM || format == FORMAT_D32_SFLOAT || format
        == FORMAT_X8_D24_UNORM_PACK32 {
        ASPECT_DEPTH
    } else if format == FORMAT_D16_UNORM_S8_UINT || format == FORMAT_D24_UNORM_S8_UINT || format
        == FORMAT_D32_SFLOAT_S8_UINT {
        ASPECT_DEPTH_STENCIL
    } else if format == FORMAT_S8_UINT {
        ASPECT_STENCIL
    } else {
        ASPECT_COLOR
    }
}

/// The aspects that a layout transition of an image covers.
pub fn aspect_for(format: i32) -> (aspect: u32)
    ensures
        aspect == aspects(format),
{
    match format {
        FORMAT_D16_UNORM | FORMAT_D32_SFLOAT | FORMAT_X8_D24_UNORM_PACK32 => ASPECT_DEPTH,
        FORMAT_D16_UNORM_S8_UINT | FORMAT_D24_UNORM_S8_UINT | FORMAT_D32_SFLOAT_S8_UINT => {
            ASPECT_DEPTH_STENCIL
        },
        FORMAT_S8_UINT => ASPECT_STENCIL,
        _ => ASPECT_COLOR,
    }
}

/// A barrier on one image.
#[derive(Debug)]
pub struct ImageBarrier {
    pub image: u64,
    pub aspect: u32,
    pub prev: Vec<AccessType>,
    pub next: Vec<AccessType>,
    pub discard: bool,
}

/// A barrier on one image, as a value.
pub ghost struct ImageStep {
    pub image: u64,
    pub aspect: u32,
    pub prev: Seq<AccessType>,
    pub next: Seq<AccessType>,
    pub discard: bool,
}

/// What one barrier command holds: the images that change layout or lose their
/// contents, and one global barrier for all the rest.
#[derive(Debug)]
pub struct BarrierBatch {
    pub images: Vec<ImageBarrier>,
    pub global: Option<(Vec<AccessType>, Vec<AccessType>)>,
}

impl ImageBarrier {
    pub open spec fn view(&self) -> ImageStep {
        ImageStep {
            image: self.image,
            aspect: self.aspect,
            prev: self.prev@,
            next: self.next@,
            discard: self.discard,
        }
    }
}

/// The views of image barriers.
pub open spec fn step_views(images: Seq<ImageBarrier>) -> Seq<ImageStep> {
    Seq::new(images.len(), |i: int| images[i]@)
}

impl TransientResources {
    /// The barrier that a transition needs on its image: where it is of an image, and
    /// changes the layout or discards the contents.
    pub open spec fn image_step(self, b: ResourceBarrier) -> Option<ImageStep> {
        match self.image_of(b.resource_id) {
            Some(image) => if layout_of_side(b.prev@) != layout_of_side(b.next@) || b.discard {
                Some(
                    ImageStep {
                        image: image.token,
                        aspect: aspects(image.format),
                        prev: b.prev@,
                        next: b.next@,
                        discard: b.discard,
                    },
                )
            } else {
                None
            },
            None => None,
        }
    }

    /// The image barriers of the first `n` transitions.
    pub open spec fn image_steps(self, barriers: Seq<ResourceBarrier>, n: nat) -> Seq<ImageStep>
        decreases n,
    {
        if n == 0 {
            Seq::empty()
        } else {
            let rest = self.image_steps(barriers, (n - 1) as nat);
            match self.image_step(barriers[n - 1]) {
                Some(step) => rest.push(step),
                None => rest,
            }
        }
    }

    /// What the first `n` transitions that need no barrier of their own leave, one after
    /// the other.
    pub open spec fn global_prev(self, barriers: Seq<ResourceBarrier>, n: nat) -> Seq<AccessType>
        decreases n,
    {
        if n == 0 {
            Seq::empty()
        } else {
            let rest = self.global_prev(barriers, (n - 1) as nat);
            if self.image_step(barriers[n - 1]) is Some {
                rest
            } else {
                rest + barriers[n - 1].prev@
            }
        }
    }

    /// What the first `n` transitions that need no barrier of their own enter, one after
    /// the other.
    pub open spec fn global_next(self, barriers: Seq<ResourceBarrier>, n: nat) -> Seq<AccessType>
        decreases n,
    {
        if n == 0 {
            Seq::empty()
        } else {
            let rest = self.global_next(barriers, (n - 1) as nat);
            if self.image_step(barriers[n - 1]) is Some {
                rest
            } else {
                rest + barriers[n - 1].next@
            }
        }
    }

    /// What comes of sorting transitions into one barrier command.
    pub open spec fn splits_into(
        self,
        barriers: Seq<ResourceBarrier>,
        batch: BarrierBatch,
    ) -> bool {
        let n = barriers.len();
        let prev = self.global_prev(barriers, n);
        &&& step_views(batch.images@) == self.image_steps(barriers, n)
        &&& match batch.global {
            Some((left, entered)) => prev.len() > 0 && left@ == prev && entered@
                == self.global_next(barriers, n),
            None => prev.len() == 0,
        }
    }

    /// Sorts transitions into one barrier command. Only a change of layout or a discard
    /// needs a barrier on its image; buffers, acceleration structures and images that
    /// keep their layout need availability and visibility alone, which one global
    /// barrier expresses.
    pub fn split_barriers(&self, barriers: &Vec<ResourceBarrier>) -> (batch: BarrierBatch)
        ensures
            self.splits_into(barriers@, batch),
    {
        let mut images: Vec<ImageBarrier> = Vec::new();
        let mut prev: Vec<AccessType> = Vec::new();
        let mut next: Vec<AccessType> = Vec::new();
        let mut i: usize = 0;
        proof {
            assert(step_views(images@) =~= self.image_steps(barriers@, 0));
        }
        while i < barriers.len()
            invariant
                i <= barriers.len(),
                step_views(images@) == self.image_steps(barriers@, i as nat),
                prev@ == self.global_prev(barriers@, i as nat),
                next@ == self.global_next(barriers@, i as nat),
            decreases barriers.len() - i,
        {
            let b = &barriers[i];
            let mut own: bool = false;
            match self.image_by_id(b.resource_id) {
                Some(image) => {
                    if epoch_layout(&b.prev) != epoch_layout(&b.next) || b.discard {
                        own = true;
                        let ghost so_far = images@;
                        images.push(
                            ImageBarrier {
                                image: image.token,
                                aspect: aspect_for(image.format),
                                prev: copy_accesses(&b.prev),
                                next: copy_accesses(&b.next),
                                discard: b.discard,
                            },
                        );
                        proof {
                            assert(step_views(images@) =~= step_views(so_far).push(
                                self.image_step(*b)->0,
                            ));
                        }
                    }
                },
                None => {},
            }
            if !own {
                append_accesses(&mut prev, &b.prev);
                append_accesses(&mut next, &b.next);
            }
            i = i + 1;
        }
        if prev.len() > 0 {
            BarrierBatch { images, global: Some((prev, next)) }
        } else {
            BarrierBatch { images, global: None }
        }
    }
}

/// Whether all of some accesses are among others.
pub open spec fn are_among(some: Seq<AccessType>, others: Seq<AccessType>) -> bool {
    forall|k: int| 0 <= k < some.len() ==> others.contains(#[trigger] some[k])
}

/// No transition is lost: it either has a barrier on its image, or the global barrier
/// leaves and enters what it leaves and enters.
pub proof fn law_no_transition_is_lost(
    tr: TransientResources,
    barriers: Seq<ResourceBarrier>,
    i: int,
    n: nat,
)
    requires
        0 <= i < n <= barriers.len(),
    ensures
        match tr.image_step(barriers[i]) {
            Some(step) => tr.image_steps(barriers, n).contains(step),
            None => are_among(barriers[i].prev@, tr.global_prev(barriers, n)) && are_among(
                barriers[i].next@,
                tr.global_next(barriers, n),
            ),
        },
    decreases n,
{
    let m = (n - 1) as nat;
    let last = barriers[n - 1];
    if i < n - 1 {
        law_no_transition_is_lost(tr, barriers, i, m);
        match tr.image_step(barriers[i]) {
            Some(step) => {
                let before = tr.image_steps(barriers, m);
                let k = choose|k: int| 0 <= k < before.len() && before[k] == step;
                assert(tr.image_steps(barriers, n)[k] == step);
            },
            None => {
                if tr.image_step(last) is None {
                    lemma_among_longer(barriers[i].prev@, tr.global_prev(barriers, m), last.prev@);
                    lemma_among_longer(barriers[i].next@, tr.global_next(barriers, m), last.next@);
                }
            },
        }
    } else {
        match tr.image_step(last) {
            Some(step) => {
                assert(tr.image_steps(barriers, n).last() == step);
            },
            None => {
                lemma_among_end(tr.global_prev(barriers, m), last.prev@);
                lemma_among_end(tr.global_next(barriers, m), last.next@);
            },
        }
    }
}

proof fn lemma_among_longer(some: Seq<AccessType>, others: Seq<AccessType>, more: Seq<AccessType>)
    requires
        are_among(some, others),
    ensures
        are_among(some, others + more),
{
    assert forall|k: int| 0 <= k < some.len() implies (others + more).contains(
        #[trigger] some[k],
    ) by {
        let j = choose|j: int| 0 <= j < others.len() && others[j] == some[k];
        assert((others + more)[j] == some[k]);
    }
}

proof fn lemma_among_end(before: Seq<AccessType>, some: Seq<AccessType>)
    ensures
        are_among(some, before + some),
{
    assert forall|k: int| 0 <= k < some.len() implies (before + some).contains(
        #[trigger] some[k],
    ) by {
        assert((before + some)[before.len() + k] == some[k]);
    }
}

/// Appends a copy of some accesses.
fn append_accesses(out: &mut Vec<AccessType>, accesses: &Vec<AccessType>)
    ensures
        final(out)@ == old(out)@ + accesses@,
{
    let mut copy = copy_accesses(accesses);
    out.append(&mut copy);
}

// ---------------------------------------------------------------------------
// What a usage asks for
// ---------------------------------------------------------------------------

// Usages by their Vulkan numbers.
pub const IMAGE_USAGE_SAMPLED: u32 = 4;

pub const IMAGE_USAGE_STORAGE: u32 = 8;

pub const BUFFER_USAGE_UNIFORM_BUFFER: u32 = 16;

pub const BUFFER_USAGE_STORAGE_BUFFER: u32 = 32;

/// Whether an image needs a storage slot, and whether it needs a sampled slot.
pub fn image_slots(usage: u32) -> (slots: (bool, bool))
    ensures
        slots.0 == (usage & IMAGE_USAGE_STORAGE == IMAGE_USAGE_STORAGE),
        slots.1 == (usage & IMAGE_USAGE_SAMPLED == IMAGE_USAGE_SAMPLED),
{
    (
        usage & IMAGE_USAGE_STORAGE == IMAGE_USAGE_STORAGE,
        usage & IMAGE_USAGE_SAMPLED == IMAGE_USAGE_SAMPLED,
    )
}

/// Whether a buffer needs a storage slot, and whether it needs a uniform slot.
pub fn buffer_slots(usage: u32) -> (slots: (bool, bool))
    ensures
        slots.0 == (usage & BUFFER_USAGE_STORAGE_BUFFER == BUFFER_USAGE_STORAGE_BUFFER),
        slots.1 == (usage & BUFFER_USAGE_UNIFORM_BUFFER == BUFFER_USAGE_UNIFORM_BUFFER),
{
    (
        usage & BUFFER_USAGE_STORAGE_BUFFER == BUFFER_USAGE_STORAGE_BUFFER,
        usage & BUFFER_USAGE_UNIFORM_BUFFER == BUFFER_USAGE_UNIFORM_BUFFER,
    )
}

} // verus!
