//! What an access type says.
use ash::vk::ImageLayout;
use vk_sync_fork::AccessType;

use sunray::render_graph::access::{
    image_layout_of, is_write_access, push_accesses, starts_write_epoch,
    LAYOUT_COLOR_ATTACHMENT_OPTIMAL, LAYOUT_DEPTH_ATTACHMENT_STENCIL_READ_ONLY_OPTIMAL,
    LAYOUT_DEPTH_READ_ONLY_STENCIL_ATTACHMENT_OPTIMAL, LAYOUT_DEPTH_STENCIL_ATTACHMENT_OPTIMAL,
    LAYOUT_DEPTH_STENCIL_READ_ONLY_OPTIMAL, LAYOUT_GENERAL, LAYOUT_PRESENT_SRC,
    LAYOUT_SHADER_READ_ONLY_OPTIMAL, LAYOUT_TRANSFER_DST_OPTIMAL, LAYOUT_TRANSFER_SRC_OPTIMAL,
    LAYOUT_UNDEFINED,
};

/// Every access, with the layout of an image under it.
fn layouts() -> Vec<(AccessType, i32)> {
    vec![
        (AccessType::Nothing, LAYOUT_UNDEFINED),
        (AccessType::CommandBufferReadNVX, LAYOUT_UNDEFINED),
        (AccessType::IndirectBuffer, LAYOUT_UNDEFINED),
        (AccessType::IndexBuffer, LAYOUT_UNDEFINED),
        (AccessType::VertexBuffer, LAYOUT_UNDEFINED),
        (AccessType::VertexShaderReadUniformBuffer, LAYOUT_UNDEFINED),
        (AccessType::MeshShaderReadUniformBuffer, LAYOUT_UNDEFINED),
        (AccessType::TaskShaderReadUniformBuffer, LAYOUT_UNDEFINED),
        (AccessType::TessellationControlShaderReadUniformBuffer, LAYOUT_UNDEFINED),
        (AccessType::TessellationEvaluationShaderReadUniformBuffer, LAYOUT_UNDEFINED),
        (AccessType::GeometryShaderReadUniformBuffer, LAYOUT_UNDEFINED),
        (AccessType::FragmentShaderReadUniformBuffer, LAYOUT_UNDEFINED),
        (AccessType::ComputeShaderReadUniformBuffer, LAYOUT_UNDEFINED),
        (AccessType::AnyShaderReadUniformBuffer, LAYOUT_UNDEFINED),
        (AccessType::AnyShaderReadUniformBufferOrVertexBuffer, LAYOUT_UNDEFINED),
        (AccessType::CommandBufferWriteNVX, LAYOUT_UNDEFINED),
        (AccessType::RayTracingShaderReadAccelerationStructure, LAYOUT_UNDEFINED),
        (AccessType::AccelerationStructureBuildWrite, LAYOUT_UNDEFINED),
        (AccessType::AccelerationStructureBuildRead, LAYOUT_UNDEFINED),
        (AccessType::AccelerationStructureBufferWrite, LAYOUT_UNDEFINED),
        (AccessType::VertexShaderReadOther, LAYOUT_GENERAL),
        (AccessType::MeshShaderReadOther, LAYOUT_GENERAL),
        (AccessType::TaskShaderReadOther, LAYOUT_GENERAL),
        (AccessType::TessellationControlShaderReadOther, LAYOUT_GENERAL),
        (AccessType::TessellationEvaluationShaderReadOther, LAYOUT_GENERAL),
        (AccessType::GeometryShaderReadOther, LAYOUT_GENERAL),
        (AccessType::FragmentShaderReadOther, LAYOUT_GENERAL),
        (AccessType::ComputeShaderReadOther, LAYOUT_GENERAL),
        (AccessType::AnyShaderReadOther, LAYOUT_GENERAL),
        (AccessType::HostRead, LAYOUT_GENERAL),
        (AccessType::VertexShaderWrite, LAYOUT_GENERAL),
        (AccessType::MeshShaderWrite, LAYOUT_GENERAL),
        (AccessType::TaskShaderWrite, LAYOUT_GENERAL),
        (AccessType::TessellationControlShaderWrite, LAYOUT_GENERAL),
        (AccessType::TessellationEvaluationShaderWrite, LAYOUT_GENERAL),
        (AccessType::GeometryShaderWrite, LAYOUT_GENERAL),
        (AccessType::FragmentShaderWrite, LAYOUT_GENERAL),
        (AccessType::ComputeShaderWrite, LAYOUT_GENERAL),
        (AccessType::ComputeShaderReadWrite, LAYOUT_GENERAL),
        (AccessType::AnyShaderWrite, LAYOUT_GENERAL),
        (AccessType::HostWrite, LAYOUT_GENERAL),
        (AccessType::General, LAYOUT_GENERAL),
        (AccessType::RayTracingShaderReadOther, LAYOUT_GENERAL),
        (AccessType::ColorAttachmentRead, LAYOUT_COLOR_ATTACHMENT_OPTIMAL),
        (AccessType::ColorAttachmentWrite, LAYOUT_COLOR_ATTACHMENT_OPTIMAL),
        (AccessType::ColorAttachmentReadWrite, LAYOUT_COLOR_ATTACHMENT_OPTIMAL),
        (AccessType::DepthStencilAttachmentReadWrite, LAYOUT_DEPTH_STENCIL_ATTACHMENT_OPTIMAL),
        (AccessType::DepthStencilAttachmentWrite, LAYOUT_DEPTH_STENCIL_ATTACHMENT_OPTIMAL),
        (AccessType::FragmentShaderReadDepthStencilInputAttachment, LAYOUT_DEPTH_STENCIL_READ_ONLY_OPTIMAL),
        (AccessType::DepthStencilAttachmentRead, LAYOUT_DEPTH_STENCIL_READ_ONLY_OPTIMAL),
        (AccessType::RayTracingShaderReadDepthStencilInputAttachment, LAYOUT_DEPTH_STENCIL_READ_ONLY_OPTIMAL),
        (AccessType::VertexShaderReadSampledImageOrUniformTexelBuffer, LAYOUT_SHADER_READ_ONLY_OPTIMAL),
        (AccessType::MeshShaderReadSampledImageOrUniformTexelBuffer, LAYOUT_SHADER_READ_ONLY_OPTIMAL),
        (AccessType::TaskShaderReadSampledImageOrUniformTexelBuffer, LAYOUT_SHADER_READ_ONLY_OPTIMAL),
        (AccessType::TessellationControlShaderReadSampledImageOrUniformTexelBuffer, LAYOUT_SHADER_READ_ONLY_OPTIMAL),
        (AccessType::TessellationEvaluationShaderReadSampledImageOrUniformTexelBuffer, LAYOUT_SHADER_READ_ONLY_OPTIMAL),
        (AccessType::GeometryShaderReadSampledImageOrUniformTexelBuffer, LAYOUT_SHADER_READ_ONLY_OPTIMAL),
        (AccessType::FragmentShaderReadSampledImageOrUniformTexelBuffer, LAYOUT_SHADER_READ_ONLY_OPTIMAL),
        (AccessType::FragmentShaderReadColorInputAttachment, LAYOUT_SHADER_READ_ONLY_OPTIMAL),
        (AccessType::ComputeShaderReadSampledImageOrUniformTexelBuffer, LAYOUT_SHADER_READ_ONLY_OPTIMAL),
        (AccessType::AnyShaderReadSampledImageOrUniformTexelBuffer, LAYOUT_SHADER_READ_ONLY_OPTIMAL),
        (AccessType::RayTracingShaderReadSampledImageOrUniformTexelBuffer, LAYOUT_SHADER_READ_ONLY_OPTIMAL),
        (AccessType::RayTracingShaderReadColorInputAttachment, LAYOUT_SHADER_READ_ONLY_OPTIMAL),
        (AccessType::TransferRead, LAYOUT_TRANSFER_SRC_OPTIMAL),
        (AccessType::TransferWrite, LAYOUT_TRANSFER_DST_OPTIMAL),
        (AccessType::Present, LAYOUT_PRESENT_SRC),
        (AccessType::StencilAttachmentWriteDepthReadOnly, LAYOUT_DEPTH_READ_ONLY_STENCIL_ATTACHMENT_OPTIMAL),
        (AccessType::DepthAttachmentWriteStencilReadOnly, LAYOUT_DEPTH_ATTACHMENT_STENCIL_READ_ONLY_OPTIMAL),
    ]
}

#[test]
fn every_access_has_its_layout() {
    let all = layouts();
    assert_eq!(all.len(), 68);
    for (access, layout) in all {
        assert_eq!(image_layout_of(access), layout, "{access:?}");
    }
}

#[test]
fn layouts_have_the_numbers_of_vulkan() {
    assert_eq!(LAYOUT_UNDEFINED, ImageLayout::UNDEFINED.as_raw());
    assert_eq!(LAYOUT_GENERAL, ImageLayout::GENERAL.as_raw());
    assert_eq!(LAYOUT_COLOR_ATTACHMENT_OPTIMAL, ImageLayout::COLOR_ATTACHMENT_OPTIMAL.as_raw());
    assert_eq!(LAYOUT_SHADER_READ_ONLY_OPTIMAL, ImageLayout::SHADER_READ_ONLY_OPTIMAL.as_raw());
    assert_eq!(LAYOUT_TRANSFER_SRC_OPTIMAL, ImageLayout::TRANSFER_SRC_OPTIMAL.as_raw());
    assert_eq!(LAYOUT_TRANSFER_DST_OPTIMAL, ImageLayout::TRANSFER_DST_OPTIMAL.as_raw());
    assert_eq!(LAYOUT_PRESENT_SRC, ImageLayout::PRESENT_SRC_KHR.as_raw());
}

#[test]
fn accesses_that_write_are_told_apart() {
    let writing = [
        AccessType::CommandBufferWriteNVX,
        AccessType::VertexShaderWrite,
        AccessType::MeshShaderWrite,
        AccessType::TaskShaderWrite,
        AccessType::TessellationControlShaderWrite,
        AccessType::TessellationEvaluationShaderWrite,
        AccessType::GeometryShaderWrite,
        AccessType::FragmentShaderWrite,
        AccessType::ColorAttachmentWrite,
        AccessType::DepthStencilAttachmentWrite,
        AccessType::DepthAttachmentWriteStencilReadOnly,
        AccessType::DepthStencilAttachmentReadWrite,
        AccessType::StencilAttachmentWriteDepthReadOnly,
        AccessType::ComputeShaderWrite,
        AccessType::ComputeShaderReadWrite,
        AccessType::AnyShaderWrite,
        AccessType::TransferWrite,
        AccessType::HostWrite,
        AccessType::ColorAttachmentReadWrite,
        AccessType::General,
        AccessType::AccelerationStructureBuildWrite,
        AccessType::AccelerationStructureBufferWrite,
    ];
    for (access, _) in layouts() {
        assert_eq!(is_write_access(access), writing.contains(&access), "{access:?}");
        assert_eq!(
            starts_write_epoch(access),
            writing.contains(&access) || access == AccessType::Nothing,
            "{access:?}"
        );
    }
}

#[test]
fn accesses_are_listed_by_name() {
    let mut text = String::from("left in ");
    push_accesses(&mut text, &vec![AccessType::General, AccessType::TransferRead]);
    assert_eq!(text, "left in [General, TransferRead]");
    let mut none = String::new();
    push_accesses(&mut none, &Vec::new());
    assert_eq!(none, "[]");
}
