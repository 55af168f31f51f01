[package]
name = "lce"
version = "0.1.0"
edition = "2021"
publish = false

[dependencies]
hashbrown = "=0.16.1"
leafwing_manifest = { version = "=0.6.0", features = ["toml"] }
serde = { version = "=1.0.229", features = ["derive"] }
bevy = { version = "=0.18.1", default-features = false, features = ["bevy_asset", "bevy_state", "bevy_log", "bevy_color", "bevy_image", "bevy_mesh", "bevy_pbr", "bevy_render", "bevy_core_pipeline", "bevy_window", "multi_threaded", "png"] }
