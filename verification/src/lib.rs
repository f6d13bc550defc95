//! A renderer's frame: a graph of passes, compiled into an order, the barriers in it and
//! the memory behind it. Around it stand the path tracer that declares the passes, scenes
//! and assets, the renderer that counts frames, and what an engine needs to drive it.

// Contracts name what compiled code does not.
#![allow(unused_imports)]

pub mod assets;
pub mod assets_laws;
pub mod bevy_integration;
pub mod error;
pub mod frame_pass_laws;
pub mod path_tracer;
pub mod path_tracer_laws;
pub mod render_graph;
pub mod renderer;
pub mod renderer_laws;
pub mod scene;
pub mod scene_laws;
pub mod scheduled;
pub mod settings;
pub mod shader_compiler;
pub mod text;
pub mod utils;
pub mod utils_laws;
