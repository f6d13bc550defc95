[package]
name = "sunray"
version = "0.1.0"
edition = "2021"
publish = false

[dependencies]
ash = "=0.38.0"
gltf = { version = "=1.4.1", features = ["KHR_materials_emissive_strength"] }
gpu-allocator = "=0.28.0"
log = "=0.4.35"
nalgebra = "=0.35.0"
petgraph = "=0.8.3"
rand = "=0.10.3"
vk-sync-fork = "=0.5.2"
egui = { version = "=0.34.3", default-features = false, features = ["default_fonts"] }
bevy_app = { version = "=0.19.1", default-features = false }
bevy_asset = { version = "=0.19.1", default-features = false }
bevy_ecs = { version = "=0.19.1", default-features = false }
bevy_gltf = { version = "=0.19.1", default-features = false }
bevy_image = { version = "=0.19.1", default-features = false }
bevy_input = { version = "=0.19.1", default-features = false }
bevy_render = { version = "=0.19.1", default-features = false }
bevy_time = { version = "=0.19.1", default-features = false }
bevy_transform = { version = "=0.19.1", default-features = false }
bevy_window = { version = "=0.19.1", default-features = false }
bevy_world_serialization = { version = "=0.19.1", default-features = false }
