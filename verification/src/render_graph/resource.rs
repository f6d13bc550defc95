//! The resources of a graph: what is created for a frame and what comes from
//! outside.
use std::marker::PhantomData;

use vk_sync_fork::AccessType;
use vstd::prelude::*;

use crate::render_graph::access::copy_accesses;
use crate::render_graph::alias::MemoryLocation;

verus! {

/// A transient image. Formats, tilings and usages are Vulkan numbers.
#[derive(Clone, Copy, Debug)]
pub struct ImageDesc {
    pub extent: (u32, u32, u32),
    pub format: i32,
    pub tiling: i32,
    pub location: MemoryLocation,
    pub usage: u32,
    pub name: &'static str,
}

/// A transient buffer. Usages are Vulkan numbers.
#[derive(Clone, Copy, Debug)]
pub struct BufferDesc {
    pub byte_size: u64,
    pub alignment: u64,
    pub memory_location: MemoryLocation,
    pub usage: u32,
    pub name: &'static str,
}

/// A sampler, by Vulkan numbers.
#[derive(Clone, Copy, Debug, PartialEq, Eq, Structural)]
pub struct SamplerDesc {
    pub min_filter: i32,
    pub mag_filter: i32,
    pub address_mode_u: i32,
    pub address_mode_v: i32,
    pub address_mode_w: i32,
    pub mipmap_mode: i32,
}

/// An acceleration structure.
#[derive(Clone, Copy, Debug, PartialEq, Eq, Structural)]
pub struct AccelerationDesc {
    pub byte_size: u64,
}

/// What a graph can be asked to create.
#[derive(Clone, Copy, Debug)]
pub enum GraphResourceDesc {
    Image(ImageDesc),
    Buffer(BufferDesc),
    Sampler(SamplerDesc),
    RaytracingAS(AccelerationDesc),
}

/// An image that exists, by its token, with what is read of it.
#[derive(Clone, Copy, Debug)]
pub struct BoundImage {
    pub token: u64,
    pub extent: (u32, u32, u32),
    pub format: i32,
}

/// A buffer that exists, by its token, with what is read of it.
#[derive(Clone, Copy, Debug)]
pub struct BoundBuffer {
    pub token: u64,
    pub byte_size: u64,
}

/// What a graph can be given: an object, and the accesses it was left in.
#[derive(Debug)]
pub enum GraphResourceImportInfo {
    Image { resource: BoundImage, access_types: Vec<AccessType> },
    Buffer { resource: BoundBuffer, access_types: Vec<AccessType> },
    RayTracingAcceleration { resource: u64, access_types: Vec<AccessType> },
    Sampler { resource: u64 },
}

/// A resource of a graph.
#[derive(Debug)]
pub enum GraphResourceInfo {
    Created(GraphResourceDesc),
    Imported(GraphResourceImportInfo),
}

impl GraphResourceInfo {
    /// Whether this is an image, whoever made it.
    pub open spec fn image(self) -> bool {
        match self {
            GraphResourceInfo::Created(GraphResourceDesc::Image(_)) => true,
            GraphResourceInfo::Imported(GraphResourceImportInfo::Image { .. }) => true,
            _ => false,
        }
    }

    /// Whether this is an image that the graph makes.
    pub open spec fn created_image(self) -> bool {
        self matches GraphResourceInfo::Created(GraphResourceDesc::Image(_))
    }

    /// Is this an image, whoever made it?
    pub fn is_image(&self) -> (r: bool)
        ensures
            r == self.image(),
    {
        match self {
            GraphResourceInfo::Created(GraphResourceDesc::Image(_)) => true,
            GraphResourceInfo::Imported(GraphResourceImportInfo::Image { .. }) => true,
            _ => false,
        }
    }

    /// Does the graph make this?
    pub fn is_created(&self) -> (r: bool)
        ensures
            r == (self is Created),
    {
        match self {
            GraphResourceInfo::Created(_) => true,
            GraphResourceInfo::Imported(_) => false,
        }
    }
}

/// A kind of resource, and what describes one of it.
pub trait Resource {
    type Desc: Copy;
}

/// A description of a resource of one kind.
pub trait ResourceDesc: Copy {
    type Resource: Resource;

    /// The description as a graph keeps it.
    spec fn graph_desc(self) -> GraphResourceDesc;

    /// The description as a graph keeps it.
    fn to_graph_desc(&self) -> (desc: GraphResourceDesc)
        ensures
            desc == self.graph_desc(),
    ;
}

/// Two types that are the same type, and the step from one to the other.
pub trait TypeEquals: Sized {
    type Other;

    spec fn as_other(self) -> Self::Other;

    fn same(value: Self) -> (other: Self::Other)
        ensures
            other == value.as_other(),
    ;
}

impl<T: Sized> TypeEquals for T {
    type Other = Self;

    open spec fn as_other(self) -> Self::Other {
        self
    }

    fn same(value: Self) -> (other: Self::Other) {
        value
    }
}

/// Images of a graph.
#[derive(Clone, Copy, Debug)]
pub struct Image;

/// Buffers of a graph.
#[derive(Clone, Copy, Debug)]
pub struct RawBuffer;

/// Samplers of a graph.
#[derive(Clone, Copy, Debug)]
pub struct Sampler;

/// Acceleration structures of a graph.
#[derive(Clone, Copy, Debug)]
pub struct AccelerationStructure;

impl Resource for Image {
    type Desc = ImageDesc;
}

impl Resource for RawBuffer {
    type Desc = BufferDesc;
}

impl Resource for Sampler {
    type Desc = SamplerDesc;
}

impl Resource for AccelerationStructure {
    type Desc = AccelerationDesc;
}

impl ResourceDesc for ImageDesc {
    type Resource = Image;

    open spec fn graph_desc(self) -> GraphResourceDesc {
        GraphResourceDesc::Image(self)
    }

    fn to_graph_desc(&self) -> (desc: GraphResourceDesc) {
        GraphResourceDesc::Image(*self)
    }
}

impl ResourceDesc for BufferDesc {
    type Resource = RawBuffer;

    open spec fn graph_desc(self) -> GraphResourceDesc {
        GraphResourceDesc::Buffer(self)
    }

    fn to_graph_desc(&self) -> (desc: GraphResourceDesc) {
        GraphResourceDesc::Buffer(*self)
    }
}

impl ResourceDesc for SamplerDesc {
    type Resource = Sampler;

    open spec fn graph_desc(self) -> GraphResourceDesc {
        GraphResourceDesc::Sampler(self)
    }

    fn to_graph_desc(&self) -> (desc: GraphResourceDesc) {
        GraphResourceDesc::Sampler(*self)
    }
}

impl ResourceDesc for AccelerationDesc {
    type Resource = AccelerationStructure;

    open spec fn graph_desc(self) -> GraphResourceDesc {
        GraphResourceDesc::RaytracingAS(self)
    }

    fn to_graph_desc(&self) -> (desc: GraphResourceDesc) {
        GraphResourceDesc::RaytracingAS(*self)
    }
}

/// A resource of the frame being built: its number, and what it is.
pub struct Handle<R: Resource> {
    pub id: u32,
    pub desc: <R as Resource>::Desc,
    pub marker: PhantomData<R>,
}

impl<R: Resource> Clone for Handle<R> {
    fn clone(&self) -> (copy: Self)
        ensures
            copy == *self,
    {
        Handle { id: self.id, desc: self.desc, marker: PhantomData }
    }
}

/// The name a description carries, if it is of a named kind.
pub open spec fn desc_name(desc: GraphResourceDesc) -> Option<Seq<char>> {
    match desc {
        GraphResourceDesc::Image(d) => Some(d.name@),
        GraphResourceDesc::Buffer(d) => Some(d.name@),
        GraphResourceDesc::Sampler(_) => None,
        GraphResourceDesc::RaytracingAS(_) => None,
    }
}

/// Debug name carried by an image or buffer description. Samplers and acceleration
/// structures have none.
pub fn graph_desc_name(desc: &GraphResourceDesc) -> (name: Option<&'static str>)
    ensures
        match name {
            Some(text) => desc_name(*desc) == Some(text@),
            None => desc_name(*desc) is None,
        },
{
    match desc {
        GraphResourceDesc::Image(d) => Some(d.name),
        GraphResourceDesc::Buffer(d) => Some(d.name),
        GraphResourceDesc::Sampler(_) => None,
        GraphResourceDesc::RaytracingAS(_) => None,
    }
}

/// An object that is imported.
#[derive(Clone, Copy, Debug)]
pub enum ImportedObject {
    Image(BoundImage),
    Buffer(BoundBuffer),
    RayTracingAcceleration(u64),
    Sampler(u64),
}

impl ImportedObject {
    /// By what its owner finds it.
    pub open spec fn token(self) -> u64 {
        match self {
            ImportedObject::Image(image) => image.token,
            ImportedObject::Buffer(buffer) => buffer.token,
            ImportedObject::RayTracingAcceleration(token) => token,
            ImportedObject::Sampler(token) => token,
        }
    }
}

/// An import as a value: which object, and the accesses it was left in.
pub ghost struct ImportState {
    pub object: ImportedObject,
    pub accesses: Seq<AccessType>,
}

impl GraphResourceImportInfo {
    pub open spec fn view(&self) -> ImportState {
        match *self {
            GraphResourceImportInfo::Image { resource, access_types } => ImportState {
                object: ImportedObject::Image(resource),
                accesses: access_types@,
            },
            GraphResourceImportInfo::Buffer { resource, access_types } => ImportState {
                object: ImportedObject::Buffer(resource),
                accesses: access_types@,
            },
            GraphResourceImportInfo::RayTracingAcceleration { resource, access_types } =>
                ImportState {
                object: ImportedObject::RayTracingAcceleration(resource),
                accesses: access_types@,
            },
            GraphResourceImportInfo::Sampler { resource } => ImportState {
                object: ImportedObject::Sampler(resource),
                accesses: Seq::empty(),
            },
        }
    }

    /// By what the owner finds the object.
    pub fn token(&self) -> (token: u64)
        ensures
            token == self@.object.token(),
    {
        match self {
            GraphResourceImportInfo::Image { resource, .. } => resource.token,
            GraphResourceImportInfo::Buffer { resource, .. } => resource.token,
            GraphResourceImportInfo::RayTracingAcceleration { resource, .. } => *resource,
            GraphResourceImportInfo::Sampler { resource } => *resource,
        }
    }

    /// A second import of the same object, left in the same accesses.
    pub fn duplicate(&self) -> (copy: Self)
        ensures
            copy@ == self@,
    {
        match self {
            GraphResourceImportInfo::Image { resource, access_types } => {
                GraphResourceImportInfo::Image {
                    resource: *resource,
                    access_types: copy_accesses(access_types),
                }
            },
            GraphResourceImportInfo::Buffer { resource, access_types } => {
                GraphResourceImportInfo::Buffer {
                    resource: *resource,
                    access_types: copy_accesses(access_types),
                }
            },
            GraphResourceImportInfo::RayTracingAcceleration { resource, access_types } => {
                GraphResourceImportInfo::RayTracingAcceleration {
                    resource: *resource,
                    access_types: copy_accesses(access_types),
                }
            },
            GraphResourceImportInfo::Sampler { resource } => {
                GraphResourceImportInfo::Sampler { resource: *resource }
            },
        }
    }
}

impl ImportState {
    /// The import with other accesses; a sampler tracks none.
    pub open spec fn left_in(self, accesses: Seq<AccessType>) -> ImportState {
        if self.object is Sampler {
            self
        } else {
            ImportState { accesses, ..self }
        }
    }
}

/// The accesses an imported resource carries coming into a compile: the state the
/// previous frame's submission left it in. Samplers carry none.
pub fn imported_initial_access(import: &GraphResourceImportInfo) -> (accesses: Vec<AccessType>)
    ensures
        accesses@ == import@.accesses,
{
    match import {
        GraphResourceImportInfo::Image { access_types, .. } => copy_accesses(access_types),
        GraphResourceImportInfo::Buffer { access_types, .. } => copy_accesses(access_types),
        GraphResourceImportInfo::RayTracingAcceleration { access_types, .. } => copy_accesses(
            access_types,
        ),
        GraphResourceImportInfo::Sampler { .. } => Vec::new(),
    }
}

/// Overwrites the accesses an import carries. A sampler stays as it is.
pub fn set_import_access(import: &mut GraphResourceImportInfo, accesses: &Vec<AccessType>)
    ensures
        final(import)@ == old(import)@.left_in(accesses@),
{
    match import {
        GraphResourceImportInfo::Image { access_types, .. } => {
            *access_types = copy_accesses(accesses);
        },
        GraphResourceImportInfo::Buffer { access_types, .. } => {
            *access_types = copy_accesses(accesses);
        },
        GraphResourceImportInfo::RayTracingAcceleration { access_types, .. } => {
            *access_types = copy_accesses(accesses);
        },
        GraphResourceImportInfo::Sampler { .. } => {},
    }
}

} // verus!
