//! How shaders are compiled, and what is said where that fails.
use vstd::prelude::*;

use crate::error::{SrError, SrResult};

verus! {

/// How every shader is compiled, wherever that is done: what is built in and what is
/// compiled while running must agree.
#[derive(Clone, Copy, Debug, PartialEq, Eq, Structural)]
pub struct CompilerOptions {
    /// Optimized as far as it goes, with debug information or without: less would hide the
    /// bugs that are being looked for.
    pub maximal_optimization: bool,
    /// Matrices lie row by row. They do not: the host has them column by column.
    pub row_major: bool,
    /// The descriptor heap capability is on.
    pub descriptor_heap: bool,
    pub debug_information: bool,
}

/// The options that every shader is compiled with. Debug information is all that differs.
pub fn slang_compiler_options(debug: bool) -> (o: CompilerOptions)
    ensures
        o.maximal_optimization,
        !o.row_major,
        o.descriptor_heap,
        o.debug_information == debug,
{
    CompilerOptions {
        maximal_optimization: true,
        row_major: false,
        descriptor_heap: true,
        debug_information: debug,
    }
}

/// Whether the switch for debug information is on: it is spelled out, and its case matters.
pub fn shader_debug_wanted(raw: &str) -> (wanted: bool)
    ensures
        wanted == (raw@ == "1"@ || raw@ == "true"@ || raw@ == "TRUE"@),
{
    text_is(raw, "1") || text_is(raw, "true") || text_is(raw, "TRUE")
}

/// Is a text this one?
fn text_is(text: &str, other: &str) -> (r: bool)
    ensures
        r == (text@ == other@),
{
    let n: usize = text.unicode_len();
    if n != other.unicode_len() {
        return false;
    }
    for i in 0..n
        invariant
            n == text@.len(),
            n == other@.len(),
            forall|k: int| 0 <= k < i ==> text@[k] == other@[k],
    {
        if text.get_char(i) != other.get_char(i) {
            return false;
        }
    }
    assert(text@ =~= other@);
    true
}

/// Is the compiler there, and does it know the descriptor heap capability?
pub fn check_compiler(opened: bool, knows_descriptor_heap: bool) -> (r: SrResult<()>)
    ensures
        match r {
            Ok(_) => opened && knows_descriptor_heap,
            Err(e) => if !opened {
                e.is_custom(
                    "Failed to create Slang GlobalSession (is the Slang runtime DLL on PATH?)"@,
                )
            } else {
                !knows_descriptor_heap && e.is_custom(
                    "Slang does not know the `spvDescriptorHeapEXT` capability — the installed Slang predates PR #10177 (Feb 2026). Update the Slang runtime."@,
                )
            },
        },
{
    if !opened {
        return Err(
            SrError::new_custom(
                String::from_str(
                    "Failed to create Slang GlobalSession (is the Slang runtime DLL on PATH?)",
                ),
            ),
        );
    }
    if !knows_descriptor_heap {
        return Err(
            SrError::new_custom(
                String::from_str(
                    "Slang does not know the `spvDescriptorHeapEXT` capability — the installed Slang predates PR #10177 (Feb 2026). Update the Slang runtime.",
                ),
            ),
        );
    }
    Ok(())
}

/// A step of compiling that failed, and what the compiler says of it.
#[derive(Debug)]
pub enum SlangFailure {
    Session,
    LoadModule(String),
    EntryPoint,
    Compose(String),
    Link(String),
    Code(String),
}

impl SlangFailure {
    /// What is said of a failure.
    pub open spec fn message(self, module_name: Seq<char>, entry_point: Seq<char>) -> Seq<char> {
        match self {
            SlangFailure::Session => "Slang create_session returned null"@,
            SlangFailure::LoadModule(e) => "Slang load_module(\""@ + module_name
                + "\") failed: "@ + e@,
            SlangFailure::EntryPoint => "entry point \""@ + entry_point
                + "\" not found in module \""@ + module_name + "\""@,
            SlangFailure::Compose(e) => "Slang create_composite_component_type failed: "@ + e@,
            SlangFailure::Link(e) => "Slang link failed: "@ + e@,
            SlangFailure::Code(e) => "Slang entry_point_code failed for \""@ + module_name
                + "::"@ + entry_point + "\": "@ + e@,
        }
    }

    /// The error for a failure to compile an entry point of a module.
    pub fn to_error(&self, module_name: &str, entry_point: &str) -> (e: SrError)
        ensures
            e.is_custom(self.message(module_name@, entry_point@)),
    {
        let mut text = String::from_str("");
        proof {
            reveal_strlit("");
        }
        match self {
            SlangFailure::Session => {
                text.append("Slang create_session returned null");
            },
            SlangFailure::LoadModule(e) => {
                text.append("Slang load_module(\"");
                text.append(module_name);
                text.append("\") failed: ");
                text.append(e.as_str());
            },
            SlangFailure::EntryPoint => {
                text.append("entry point \"");
                text.append(entry_point);
                text.append("\" not found in module \"");
                text.append(module_name);
                text.append("\"");
            },
            SlangFailure::Compose(e) => {
                text.append("Slang create_composite_component_type failed: ");
                text.append(e.as_str());
            },
            SlangFailure::Link(e) => {
                text.append("Slang link failed: ");
                text.append(e.as_str());
            },
            SlangFailure::Code(e) => {
                text.append("Slang entry_point_code failed for \"");
                text.append(module_name);
                text.append("::");
                text.append(entry_point);
                text.append("\": ");
                text.append(e.as_str());
            },
        }
        proof {
            assert(text@ =~= self.message(module_name@, entry_point@));
        }
        SrError::new_custom(text)
    }
}

/// The code of an entry point of a module, or the error for what failed.
pub fn compiled(
    outcome: Result<Vec<u8>, SlangFailure>,
    module_name: &str,
    entry_point: &str,
) -> (r: SrResult<Vec<u8>>)
    ensures
        match (outcome, r) {
            (Ok(code), Ok(spirv)) => spirv == code,
            (Err(failure), Err(e)) => e.is_custom(failure.message(module_name@, entry_point@)),
            _ => false,
        },
{
    match outcome {
        Ok(code) => Ok(code),
        Err(failure) => Err(failure.to_error(module_name, entry_point)),
    }
}

} // verus!
