//! Errors, and numbers in text.
use ash::vk;
use gpu_allocator::AllocationError;

use sunray::error::{ErrorSource, GraphError, SrError};
use sunray::text::{push_decimal, push_hexadecimal, push_left_aligned, push_right_aligned};

#[test]
fn an_error_of_ones_own_says_so() {
    let e = SrError::new_custom("no luck".to_string());
    assert!(matches!(e.get_source(), ErrorSource::Custom(text) if text == "no luck"));
    assert!(e.description.starts_with("UNEXPECTED CUSTOM ERROR: no luck"));
    assert!(e.description.len() > "UNEXPECTED CUSTOM ERROR: no luck".len());
}

#[test]
fn a_backtrace_stands_behind_the_description() {
    let source = ErrorSource::RenderGraph(GraphError::InvalidResourceRef);
    let e = SrError::new_with_backtrace(source, "what".to_string(), Some("trace".to_string()));
    assert_eq!(e.description, "what\ntrace");
    assert!(matches!(e.get_source(), ErrorSource::RenderGraph(GraphError::InvalidResourceRef)));
}

#[test]
fn without_a_backtrace_there_is_a_hint() {
    let source = ErrorSource::Vulkan(vk::Result::ERROR_DEVICE_LOST);
    let e = SrError::new_with_backtrace(source, "what".to_string(), None);
    assert_eq!(e.description, "what (set RUST_BACKTRACE=1 to get a backtrace)");
}

#[test]
fn every_source_is_kept() {
    let sources = [
        ErrorSource::Vulkan(vk::Result::ERROR_DEVICE_LOST),
        ErrorSource::Gltf(gltf::Error::UnsupportedScheme),
        ErrorSource::GpuAllocator(AllocationError::OutOfMemory),
        ErrorSource::RenderGraph(GraphError::IncorrectRenderAccessFlags),
        ErrorSource::DescriptorHeap("c".to_string()),
        ErrorSource::Custom("d".to_string()),
    ];
    for source in sources {
        let shown = format!("{source:?}");
        let e = SrError::new(source, "x".to_string());
        assert_eq!(format!("{:?}", e.get_source()), shown);
    }
}

#[test]
fn errors_of_vulkan_are_told_in_its_words() {
    let e = SrError::from(vk::Result::ERROR_OUT_OF_HOST_MEMORY);
    assert!(matches!(
        e.get_source(),
        ErrorSource::Vulkan(vk::Result::ERROR_OUT_OF_HOST_MEMORY)
    ));
    assert!(e
        .description
        .starts_with("UNEXPECTED VULKAN ERROR: A host memory allocation has failed"));
    let e = SrError::from(vk::Result::ERROR_OUT_OF_DATE_KHR);
    assert!(e.description.starts_with("UNEXPECTED VULKAN ERROR: ERROR_OUT_OF_DATE_KHR"));
}

#[test]
fn errors_of_gltf_are_told_in_its_words() {
    let told = gltf::Error::UnsupportedScheme.to_string();
    let e = SrError::from(gltf::Error::UnsupportedScheme);
    assert!(matches!(e.get_source(), ErrorSource::Gltf(gltf::Error::UnsupportedScheme)));
    assert!(e.description.starts_with(&format!("UNEXPECTED GLTF ERROR: {told}")));
}

#[test]
fn errors_of_allocating_are_told_in_full() {
    let why = || "why".to_string();
    let all = [
        (AllocationError::OutOfMemory, "Out of memory"),
        (AllocationError::FailedToMap(why()), "Failed to map memory: why"),
        (
            AllocationError::NoCompatibleMemoryTypeFound,
            "No compatible memory type available",
        ),
        (AllocationError::InvalidAllocationCreateDesc, "Invalid AllocationCreateDesc"),
        (
            AllocationError::InvalidAllocatorCreateDesc(why()),
            "Invalid AllocatorCreateDesc why",
        ),
        (AllocationError::Internal(why()), "Internal error: why"),
        (
            AllocationError::BarrierLayoutNeedsDevice10,
            "Initial `BARRIER_LAYOUT` needs at least `Device10`",
        ),
        (
            AllocationError::CastableFormatsRequiresEnhancedBarriers,
            "Castable formats require enhanced barriers",
        ),
        (
            AllocationError::CastableFormatsRequiresAtLeastDevice12,
            "Castable formats require at least `Device12`",
        ),
    ];
    for (error, told) in all {
        let e = SrError::from(error);
        assert!(matches!(e.get_source(), ErrorSource::GpuAllocator(_)));
        let expected = format!("UNEXPECTED GPU_ALLOCATOR ERROR: {told}");
        assert!(e.description.starts_with(&expected), "{}", e.description);
    }
}

#[test]
fn numbers_are_written_as_std_writes_them() {
    for n in [0u64, 7, 10, 99, 100, 12345, u64::MAX] {
        let mut text = String::from("n=");
        push_decimal(&mut text, n);
        assert_eq!(text, format!("n={n}"));
        let mut text = String::new();
        push_hexadecimal(&mut text, n);
        assert_eq!(text, format!("{n:x}"));
    }
}

#[test]
fn text_is_aligned_as_std_aligns_it() {
    for word in ["", "ab", "abcdef", "é"] {
        let mut text = String::new();
        push_right_aligned(&mut text, word, 4);
        assert_eq!(text, format!("{word:>4}"));
        let mut text = String::new();
        push_left_aligned(&mut text, word, 4);
        assert_eq!(text, format!("{word:<4}"));
    }
}
