//! What an access type says: whether it writes, and which image layout it implies.
use vk_sync_fork::AccessType;
use vstd::prelude::*;

verus! {

/// `vk_sync`'s list of resource usages.
#[verifier::external_type_specification]
pub struct ExAccessType(vk_sync_fork::AccessType);

// Image layouts by their Vulkan numbers.
pub const LAYOUT_UNDEFINED: i32 = 0;
pub const LAYOUT_GENERAL: i32 = 1;
pub const LAYOUT_COLOR_ATTACHMENT_OPTIMAL: i32 = 2;
pub const LAYOUT_DEPTH_STENCIL_ATTACHMENT_OPTIMAL: i32 = 3;
pub const LAYOUT_DEPTH_STENCIL_READ_ONLY_OPTIMAL: i32 = 4;
pub const LAYOUT_SHADER_READ_ONLY_OPTIMAL: i32 = 5;
pub const LAYOUT_TRANSFER_SRC_OPTIMAL: i32 = 6;
pub const LAYOUT_TRANSFER_DST_OPTIMAL: i32 = 7;
pub const LAYOUT_PRESENT_SRC: i32 = 1000001002;
pub const LAYOUT_DEPTH_READ_ONLY_STENCIL_ATTACHMENT_OPTIMAL: i32 = 1000117000;
pub const LAYOUT_DEPTH_ATTACHMENT_STENCIL_READ_ONLY_OPTIMAL: i32 = 1000117001;

/// Whether an access writes. Building an acceleration structure writes it and its
/// buffers; `Nothing` neither reads nor writes.
pub open spec fn writes(access: AccessType) -> bool {
    matches!(
        access,
        AccessType::CommandBufferWriteNVX
            | AccessType::VertexShaderWrite
            | AccessType::MeshShaderWrite
            | AccessType::TaskShaderWrite
            | AccessType::TessellationControlShaderWrite
            | AccessType::TessellationEvaluationShaderWrite
            | AccessType::GeometryShaderWrite
            | AccessType::FragmentShaderWrite
            | AccessType::ColorAttachmentWrite
            | AccessType::DepthStencilAttachmentWrite
            | AccessType::DepthAttachmentWriteStencilReadOnly
            | AccessType::DepthStencilAttachmentReadWrite
            | AccessType::StencilAttachmentWriteDepthReadOnly
            | AccessType::ComputeShaderWrite
            | AccessType::ComputeShaderReadWrite
            | AccessType::AnyShaderWrite
            | AccessType::TransferWrite
            | AccessType::HostWrite
            | AccessType::ColorAttachmentReadWrite
            | AccessType::General
            | AccessType::AccelerationStructureBuildWrite
            | AccessType::AccelerationStructureBufferWrite
    )
}

/// Does this access write?
pub fn is_write_access(access: AccessType) -> (r: bool)
    ensures
        r == writes(access),
{
    matches!(
        access,
        AccessType::CommandBufferWriteNVX
            | AccessType::VertexShaderWrite
            | AccessType::MeshShaderWrite
            | AccessType::TaskShaderWrite
            | AccessType::TessellationControlShaderWrite
            | AccessType::TessellationEvaluationShaderWrite
            | AccessType::GeometryShaderWrite
            | AccessType::FragmentShaderWrite
            | AccessType::ColorAttachmentWrite
            | AccessType::DepthStencilAttachmentWrite
            | AccessType::DepthAttachmentWriteStencilReadOnly
            | AccessType::DepthStencilAttachmentReadWrite
            | AccessType::StencilAttachmentWriteDepthReadOnly
            | AccessType::ComputeShaderWrite
            | AccessType::ComputeShaderReadWrite
            | AccessType::AnyShaderWrite
            | AccessType::TransferWrite
            | AccessType::HostWrite
            | AccessType::ColorAttachmentReadWrite
            | AccessType::General
            | AccessType::AccelerationStructureBuildWrite
            | AccessType::AccelerationStructureBufferWrite
    )
}

/// Whether an access begins an epoch of its own: see [`starts_write_epoch`].
pub open spec fn opens_write_epoch(access: AccessType) -> bool {
    writes(access) || access == AccessType::Nothing
}

/// `Nothing` is neither a read nor a write access, but it means "contents are
/// undefined and a transition is required", so for epoch purposes it behaves as a
/// write: it must not merge into a neighbouring read run, and the first real use
/// must be ordered after it.
pub fn starts_write_epoch(access: AccessType) -> (r: bool)
    ensures
        r == opens_write_epoch(access),
{
    is_write_access(access) || matches!(access, AccessType::Nothing)
}

/// The optimal layout for an image under an access, by its Vulkan number.
pub open spec fn optimal_layout(access: AccessType) -> i32 {
    match access {
        AccessType::Nothing
        | AccessType::CommandBufferReadNVX
        | AccessType::IndirectBuffer
        | AccessType::IndexBuffer
        | AccessType::VertexBuffer
        | AccessType::VertexShaderReadUniformBuffer
        | AccessType::MeshShaderReadUniformBuffer
        | AccessType::TaskShaderReadUniformBuffer
        | AccessType::TessellationControlShaderReadUniformBuffer
        | AccessType::TessellationEvaluationShaderReadUniformBuffer
        | AccessType::GeometryShaderReadUniformBuffer
        | AccessType::FragmentShaderReadUniformBuffer
        | AccessType::ComputeShaderReadUniformBuffer
        | AccessType::AnyShaderReadUniformBuffer
        | AccessType::AnyShaderReadUniformBufferOrVertexBuffer
        | AccessType::CommandBufferWriteNVX
        | AccessType::RayTracingShaderReadAccelerationStructure
        | AccessType::AccelerationStructureBuildWrite
        | AccessType::AccelerationStructureBuildRead
        | AccessType::AccelerationStructureBufferWrite => LAYOUT_UNDEFINED,
        AccessType::VertexShaderReadOther
        | AccessType::MeshShaderReadOther
        | AccessType::TaskShaderReadOther
        | AccessType::TessellationControlShaderReadOther
        | AccessType::TessellationEvaluationShaderReadOther
        | AccessType::GeometryShaderReadOther
        | AccessType::FragmentShaderReadOther
        | AccessType::ComputeShaderReadOther
        | AccessType::AnyShaderReadOther
        | AccessType::HostRead
        | AccessType::VertexShaderWrite
        | AccessType::MeshShaderWrite
        | AccessType::TaskShaderWrite
        | AccessType::TessellationControlShaderWrite
        | AccessType::TessellationEvaluationShaderWrite
        | AccessType::GeometryShaderWrite
        | AccessType::FragmentShaderWrite
        | AccessType::ComputeShaderWrite
        | AccessType::ComputeShaderReadWrite
        | AccessType::AnyShaderWrite
        | AccessType::HostWrite
        | AccessType::General
        | AccessType::RayTracingShaderReadOther => LAYOUT_GENERAL,
        AccessType::ColorAttachmentRead
        | AccessType::ColorAttachmentWrite
        | AccessType::ColorAttachmentReadWrite => LAYOUT_COLOR_ATTACHMENT_OPTIMAL,
        AccessType::DepthStencilAttachmentReadWrite
        | AccessType::DepthStencilAttachmentWrite => LAYOUT_DEPTH_STENCIL_ATTACHMENT_OPTIMAL,
        AccessType::FragmentShaderReadDepthStencilInputAttachment
        | AccessType::DepthStencilAttachmentRead
        | AccessType::RayTracingShaderReadDepthStencilInputAttachment => LAYOUT_DEPTH_STENCIL_READ_ONLY_OPTIMAL,
        AccessType::VertexShaderReadSampledImageOrUniformTexelBuffer
        | AccessType::MeshShaderReadSampledImageOrUniformTexelBuffer
        | AccessType::TaskShaderReadSampledImageOrUniformTexelBuffer
        | AccessType::TessellationControlShaderReadSampledImageOrUniformTexelBuffer
        | AccessType::TessellationEvaluationShaderReadSampledImageOrUniformTexelBuffer
        | AccessType::GeometryShaderReadSampledImageOrUniformTexelBuffer
        | AccessType::FragmentShaderReadSampledImageOrUniformTexelBuffer
        | AccessType::FragmentShaderReadColorInputAttachment
        | AccessType::ComputeShaderReadSampledImageOrUniformTexelBuffer
        | AccessType::AnyShaderReadSampledImageOrUniformTexelBuffer
        | AccessType::RayTracingShaderReadSampledImageOrUniformTexelBuffer
        | AccessType::RayTracingShaderReadColorInputAttachment => LAYOUT_SHADER_READ_ONLY_OPTIMAL,
        AccessType::TransferRead => LAYOUT_TRANSFER_SRC_OPTIMAL,
        AccessType::TransferWrite => LAYOUT_TRANSFER_DST_OPTIMAL,
        AccessType::Present => LAYOUT_PRESENT_SRC,
        AccessType::StencilAttachmentWriteDepthReadOnly => LAYOUT_DEPTH_READ_ONLY_STENCIL_ATTACHMENT_OPTIMAL,
        AccessType::DepthAttachmentWriteStencilReadOnly => LAYOUT_DEPTH_ATTACHMENT_STENCIL_READ_ONLY_OPTIMAL,
    }
}

/// `vk_sync_fork::get_image_memory_barrier`, asked for the layout that a barrier into
/// one access ends in where layouts are `ImageLayout::Optimal`: the layout that
/// [`optimal_layout`] lists for the access.
#[verifier::external_body]
fn barrier_layout(access: AccessType) -> (layout: i32)
    ensures
        layout == optimal_layout(access),
{
    let next_accesses = [access];
    let barrier = vk_sync_fork::ImageBarrier {
        next_accesses: &next_accesses,
        next_layout: vk_sync_fork::ImageLayout::Optimal,
        ..Default::default()
    };
    vk_sync_fork::get_image_memory_barrier(&barrier).2.new_layout.as_raw()
}

/// The image layout an access type implies, as `vk_sync` picks it for
/// `ImageLayout::Optimal`. Decides whether a run of reads can share one barrier
/// (they must agree on layout), and whether a barrier needs a layout transition.
pub fn image_layout_of(access: AccessType) -> (layout: i32)
    ensures
        layout == optimal_layout(access),
{
    barrier_layout(access)
}

/// `==` on `vk_sync_fork::AccessType` tells its variants apart.
#[verifier::external_body]
pub(crate) fn same_access(a: AccessType, b: AccessType) -> (r: bool)
    ensures
        r == (a == b),
{
    a == b
}

/// `Debug` of `vk_sync_fork::AccessType`: the name an access is printed by.
pub uninterp spec fn access_name(access: AccessType) -> Seq<char>;

/// `{:?}` of `vk_sync_fork::AccessType`, which [`access_name`] names.
#[verifier::external_body]
pub(crate) fn access_text(access: AccessType) -> (text: String)
    ensures
        text@ == access_name(access),
{
    format!("{:?}", access)
}

/// The names of the first `n` accesses, with commas between them.
pub open spec fn joined_names(accesses: Seq<AccessType>, n: nat) -> Seq<char>
    decreases n,
{
    if n == 0 {
        Seq::empty()
    } else if n == 1 {
        access_name(accesses[0])
    } else {
        joined_names(accesses, (n - 1) as nat) + ", "@ + access_name(accesses[n - 1])
    }
}

/// A list of accesses as it is printed.
pub open spec fn accesses_text(accesses: Seq<AccessType>) -> Seq<char> {
    "["@ + joined_names(accesses, accesses.len()) + "]"@
}

/// Appends a list of accesses as it is printed.
pub fn push_accesses(out: &mut String, accesses: &Vec<AccessType>)
    ensures
        final(out)@ == old(out)@ + accesses_text(accesses@),
{
    out.append("[");
    let mut i: usize = 0;
    proof {
        assert(out@ =~= old(out)@ + "["@ + joined_names(accesses@, 0));
    }
    while i < accesses.len()
        invariant
            i <= accesses.len(),
            out@ == old(out)@ + "["@ + joined_names(accesses@, i as nat),
        decreases accesses.len() - i,
    {
        if i > 0 {
            out.append(", ");
        }
        let name = access_text(accesses[i]);
        out.append(name.as_str());
        i = i + 1;
        proof {
            assert(out@ =~= old(out)@ + "["@ + joined_names(accesses@, i as nat));
        }
    }
    out.append("]");
    proof {
        assert(out@ =~= old(out)@ + accesses_text(accesses@));
    }
}

/// Is `access` one of `accesses`?
pub(crate) fn contains_access(accesses: &Vec<AccessType>, access: AccessType) -> (r: bool)
    ensures
        r == accesses@.contains(access),
{
    let mut i: usize = 0;
    while i < accesses.len()
        invariant
            i <= accesses.len(),
            forall|k: int| 0 <= k < i ==> accesses[k] != access,
        decreases accesses.len() - i,
    {
        if same_access(accesses[i], access) {
            return true;
        }
        i = i + 1;
    }
    false
}

/// A copy of a list of accesses.
pub(crate) fn copy_accesses(accesses: &Vec<AccessType>) -> (copy: Vec<AccessType>)
    ensures
        copy@ == accesses@,
{
    let mut copy: Vec<AccessType> = Vec::with_capacity(accesses.len());
    let mut i: usize = 0;
    while i < accesses.len()
        invariant
            i <= accesses.len(),
            copy@ == accesses@.take(i as int),
        decreases accesses.len() - i,
    {
        copy.push(accesses[i]);
        proof {
            assert(accesses@.take(i + 1) =~= accesses@.take(i as int).push(accesses[i as int]));
        }
        i = i + 1;
    }
    proof {
        assert(accesses@.take(i as int) =~= accesses@);
    }
    copy
}

/// How a pass access is synchronized with the accesses around it.
#[derive(Copy, Clone, Debug, PartialEq, Eq, Structural)]
pub enum PassResourceAccessSyncType {
    AlwaysSync,
    SkipSyncIfSameAccessType,
    NeverSync,
}

/// How a pass touches a resource.
#[derive(Copy, Clone, Debug)]
pub struct PassResourceAccessType {
    pub access_type: AccessType,
    /// Declared, and not consulted by the barrier planner.
    pub sync_type: PassResourceAccessSyncType,
}

/// One resource as a pass declares it: which, and how it is touched.
#[derive(Copy, Clone, Debug)]
pub struct ResourceRef {
    pub id: u32,
    pub access: PassResourceAccessType,
}

} // verus!
