//! What stands between an entity-component world and the renderer: which meshes are
//! uploaded, how an overlay of user interface is drawn, and what input it gets.

pub mod asset;
pub mod asset_laws;
pub mod egui_paint;
pub mod egui_support;
pub mod gltf_laws;
pub mod gltf_scene;
pub mod overlay_laws;
pub mod state;
