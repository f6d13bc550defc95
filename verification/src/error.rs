//! Errors: where they come from and what they say.
use vstd::prelude::*;

verus! {

/// What goes wrong in declaring or resolving a graph.
#[derive(Clone, Copy, Debug, PartialEq, Eq, Structural)]
pub enum GraphError {
    /// A read was declared with a writing access, or the other way round.
    IncorrectRenderAccessFlags,
    /// A resource id does not name a resource of the graph.
    InvalidResourceRef,
}

/// A result code of Vulkan.
#[verifier::external_type_specification]
#[verifier::external_body]
pub struct ExVkResult(ash::vk::Result);

/// What goes wrong in reading glTF.
#[verifier::external_type_specification]
#[verifier::external_body]
pub struct ExGltfError(gltf::Error);

/// What goes wrong in allocating device memory.
#[verifier::external_type_specification]
pub struct ExAllocationError(gpu_allocator::AllocationError);

/// Where an error comes from.
#[derive(Debug)]
pub enum ErrorSource {
    Vulkan(ash::vk::Result),
    Gltf(gltf::Error),
    GpuAllocator(gpu_allocator::AllocationError),
    RenderGraph(GraphError),
    /// What the descriptor heap says.
    DescriptorHeap(String),
    Custom(String),
}

/// An error with its source and a description for people.
#[derive(Debug)]
pub struct SrError {
    pub source: ErrorSource,
    pub description: String,
}

/// The crate's result type.
pub type SrResult<T> = std::result::Result<T, SrError>;

/// `std::backtrace::Backtrace::capture`: the backtrace in text, where capturing is
/// switched on. Nothing is claimed of it: it depends on the environment and on the
/// place of the call.
#[verifier::external_body]
fn capture_backtrace() -> Option<String> {
    let captured = std::backtrace::Backtrace::capture();
    match captured.status() {
        std::backtrace::BacktraceStatus::Captured => Some(captured.to_string()),
        _ => None,
    }
}

/// A description completed by a backtrace, or by a hint at how to get one.
pub open spec fn with_backtrace(description: Seq<char>, backtrace: Option<Seq<char>>) -> Seq<char> {
    match backtrace {
        Some(text) => description + "\n"@ + text,
        None => description + " (set RUST_BACKTRACE=1 to get a backtrace)"@,
    }
}

/// Whether `full` is `description` completed in one of the two ways.
pub open spec fn completes(full: Seq<char>, description: Seq<char>) -> bool {
    exists|backtrace: Option<Seq<char>>| full == #[trigger] with_backtrace(description, backtrace)
}

impl SrError {
    /// An error of the crate's own, in words.
    pub open spec fn is_custom(self, error: Seq<char>) -> bool {
        &&& self.source matches ErrorSource::Custom(text) && text@ == error
        &&& completes(self.description@, "UNEXPECTED CUSTOM ERROR: "@ + error)
    }

    /// An error in declaring or resolving a graph.
    pub open spec fn is_graph_error(self, error: GraphError, description: Seq<char>) -> bool {
        &&& self.source == ErrorSource::RenderGraph(error)
        &&& completes(self.description@, description)
    }

    /// An error of the crate's own, in words.
    pub fn new_custom(error: String) -> (e: Self)
        ensures
            e.is_custom(error@),
    {
        let mut description = String::from_str("UNEXPECTED CUSTOM ERROR: ");
        description.append(error.as_str());
        Self::new(ErrorSource::Custom(error), description)
    }

    /// An error with a backtrace of this place.
    pub fn new(source: ErrorSource, description: String) -> (e: Self)
        ensures
            e.source == source,
            completes(e.description@, description@),
    {
        let backtrace = capture_backtrace();
        Self::new_with_backtrace(source, description, backtrace)
    }

    /// An error whose description is completed by the backtrace, or by how to get one.
    pub fn new_with_backtrace(
        source: ErrorSource,
        description: String,
        backtrace: Option<String>,
    ) -> (e: Self)
        ensures
            e.source == source,
            e.description@ == with_backtrace(
                description@,
                match backtrace {
                    Some(text) => Some(text@),
                    None => None,
                },
            ),
    {
        let mut description = description;
        match backtrace {
            Some(text) => {
                description.append("\n");
                description.append(text.as_str());
            },
            None => {
                description.append(" (set RUST_BACKTRACE=1 to get a backtrace)");
            },
        }
        SrError { source, description }
    }

    /// Where the error comes from.
    pub fn get_source(&self) -> (source: &ErrorSource)
        ensures
            *source == self.source,
    {
        &self.source
    }
}

// ---------------------------------------------------------------------------
// Errors of the outside world
// ---------------------------------------------------------------------------

/// What `ash::vk::Result` says of itself.
pub uninterp spec fn vulkan_message(code: ash::vk::Result) -> Seq<char>;

/// The `Display` of `ash::vk::Result`: a sentence for each code of Vulkan's first version,
/// the name of any other code that is known, and the number of one that is not. The code
/// alone decides.
#[verifier::external_body]
fn vulkan_text(code: &ash::vk::Result) -> (text: String)
    ensures
        text@ == vulkan_message(*code),
{
    code.to_string()
}

/// The `Display` of `gltf::Error`. Nothing is claimed of it: errors of reading files are
/// put in the words of the operating system.
#[verifier::external_body]
fn gltf_text(error: &gltf::Error) -> String {
    error.to_string()
}

/// What `gpu_allocator::AllocationError` says of itself.
pub open spec fn allocation_message(error: gpu_allocator::AllocationError) -> Seq<char> {
    match error {
        gpu_allocator::AllocationError::OutOfMemory => "Out of memory"@,
        gpu_allocator::AllocationError::FailedToMap(why) => "Failed to map memory: "@ + why@,
        gpu_allocator::AllocationError::NoCompatibleMemoryTypeFound =>
            "No compatible memory type available"@,
        gpu_allocator::AllocationError::InvalidAllocationCreateDesc =>
            "Invalid AllocationCreateDesc"@,
        gpu_allocator::AllocationError::InvalidAllocatorCreateDesc(why) =>
            "Invalid AllocatorCreateDesc "@ + why@,
        gpu_allocator::AllocationError::Internal(why) => "Internal error: "@ + why@,
        gpu_allocator::AllocationError::BarrierLayoutNeedsDevice10 =>
            "Initial `BARRIER_LAYOUT` needs at least `Device10`"@,
        gpu_allocator::AllocationError::CastableFormatsRequiresEnhancedBarriers =>
            "Castable formats require enhanced barriers"@,
        gpu_allocator::AllocationError::CastableFormatsRequiresAtLeastDevice12 =>
            "Castable formats require at least `Device12`"@,
    }
}

/// The `Display` of `gpu_allocator::AllocationError`: a sentence for each kind of error,
/// with the reason where there is one.
#[verifier::external_body]
fn allocation_text(error: &gpu_allocator::AllocationError) -> (text: String)
    ensures
        text@ == allocation_message(*error),
{
    error.to_string()
}

/// A description of an error of the outside world: where it comes from, and what it says.
fn describe(origin: &str, text: &String) -> (description: String)
    ensures
        description@ == origin@ + text@,
{
    let mut description = origin.to_owned();
    description.append(text.as_str());
    description
}

impl From<ash::vk::Result> for SrError {
    fn from(value: ash::vk::Result) -> (e: Self)
        ensures
            e.source == ErrorSource::Vulkan(value),
            completes(
                e.description@,
                "UNEXPECTED VULKAN ERROR: "@ + vulkan_message(value),
            ),
    {
        let description = describe("UNEXPECTED VULKAN ERROR: ", &vulkan_text(&value));
        SrError::new(ErrorSource::Vulkan(value), description)
    }
}

/// The backtrace in a description is not given by the code alone.
impl vstd::std_specs::convert::FromSpecImpl<ash::vk::Result> for SrError {
    open spec fn obeys_from_spec() -> bool {
        false
    }

    open spec fn from_spec(value: ash::vk::Result) -> Self {
        arbitrary()
    }
}

impl From<gltf::Error> for SrError {
    fn from(value: gltf::Error) -> (e: Self)
        ensures
            e.source == ErrorSource::Gltf(value),
            exists|text: Seq<char>|
                completes(e.description@, #[trigger] ("UNEXPECTED GLTF ERROR: "@ + text)),
    {
        let text = gltf_text(&value);
        let description = describe("UNEXPECTED GLTF ERROR: ", &text);
        SrError::new(ErrorSource::Gltf(value), description)
    }
}

/// The backtrace in a description is not given by the error alone.
impl vstd::std_specs::convert::FromSpecImpl<gltf::Error> for SrError {
    open spec fn obeys_from_spec() -> bool {
        false
    }

    open spec fn from_spec(value: gltf::Error) -> Self {
        arbitrary()
    }
}

impl From<gpu_allocator::AllocationError> for SrError {
    fn from(value: gpu_allocator::AllocationError) -> (e: Self)
        ensures
            e.source == ErrorSource::GpuAllocator(value),
            completes(
                e.description@,
                "UNEXPECTED GPU_ALLOCATOR ERROR: "@ + allocation_message(value),
            ),
    {
        let description = describe("UNEXPECTED GPU_ALLOCATOR ERROR: ", &allocation_text(&value));
        SrError::new(ErrorSource::GpuAllocator(value), description)
    }
}

/// The backtrace in a description is not given by the error alone.
impl vstd::std_specs::convert::FromSpecImpl<gpu_allocator::AllocationError> for SrError {
    open spec fn obeys_from_spec() -> bool {
        false
    }

    open spec fn from_spec(value: gpu_allocator::AllocationError) -> Self {
        arbitrary()
    }
}

} // verus!
