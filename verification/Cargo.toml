[package]
name = "worldbox"
version = "0.1.0"
edition = "2021"
publish = false

[dependencies]
ordermap = { version = "=1.2.2", features = ["serde"] }
serde = { version = "=1.0.229", features = ["derive"] }
serde_yaml = "=0.9.34"
glob = "=0.3.4"
bevy = { version = "=0.15.3", default-features = false, features = ["bevy_asset", "bevy_color", "bevy_core_pipeline", "bevy_pbr", "bevy_render", "bevy_state", "bevy_text", "bevy_ui", "bevy_window", "multi_threaded", "png"] }
