//! The settings a renderer is made with.
use vstd::prelude::*;

verus! {

/// A tool that watches the device.
#[derive(Clone, Copy, Debug, PartialEq, Eq, Structural)]
pub enum DiagnosticTool {
    Off,
    NvidiaAftermath,
    NvidiaNsightGraphics,
}

/// The switches of the environment, where they are set.
#[derive(Clone, Copy, Debug)]
pub struct Switches {
    pub validation_layer: Option<bool>,
    pub gpuav: Option<bool>,
    pub nsight: Option<bool>,
    pub nvidia_aftermath: Option<bool>,
    pub serialize_frames: Option<bool>,
}

/// What a renderer is made with.
#[derive(Clone, Copy, Debug, PartialEq, Eq, Structural)]
pub struct Settings {
    pub with_validation_layer: bool,
    pub with_gpuav: bool,
    pub diagnostics: DiagnosticTool,
    /// Whether a frame is waited for before the next is recorded.
    pub serialize_frames: bool,
}

/// A switch, or what holds where it is not set.
pub open spec fn switch_or(switch: Option<bool>, default: bool) -> bool {
    match switch {
        Some(on) => on,
        None => default,
    }
}

/// The settings that switches come to. The validation layer is on in debug builds,
/// frames are serialized, and the rest is off. Nsight takes precedence over Aftermath.
pub open spec fn settings_of(switches: Switches, debug_build: bool) -> Settings {
    Settings {
        with_validation_layer: switch_or(switches.validation_layer, debug_build),
        with_gpuav: switch_or(switches.gpuav, false),
        diagnostics: if switch_or(switches.nsight, false) {
            DiagnosticTool::NvidiaNsightGraphics
        } else if switch_or(switches.nvidia_aftermath, false) {
            DiagnosticTool::NvidiaAftermath
        } else {
            DiagnosticTool::Off
        },
        serialize_frames: switch_or(switches.serialize_frames, true),
    }
}

impl Settings {
    /// The settings that switches come to.
    pub fn from_switches(switches: Switches, debug_build: bool) -> (settings: Self)
        ensures
            settings == settings_of(switches, debug_build),
    {
        let diagnostics = if switches.nsight.unwrap_or(false) {
            DiagnosticTool::NvidiaNsightGraphics
        } else if switches.nvidia_aftermath.unwrap_or(false) {
            DiagnosticTool::NvidiaAftermath
        } else {
            DiagnosticTool::Off
        };
        Settings {
            with_validation_layer: switches.validation_layer.unwrap_or(debug_build),
            with_gpuav: switches.gpuav.unwrap_or(false),
            diagnostics,
            serialize_frames: switches.serialize_frames.unwrap_or(true),
        }
    }
}

} // verus!
