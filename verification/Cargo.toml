[package]
name = "superdupervoxels"
version = "0.1.0"
edition = "2021"
publish = false

[dependencies]
bevy = { version = "0.17", default-features = false, features = ["std", "bevy_pbr", "bevy_ui", "bevy_text", "bevy_state", "bevy_window", "bevy_core_pipeline", "bevy_render", "bevy_asset", "bevy_log", "default_font"] }
postcard = { version = "1", features = ["use-std"] }
redb = "3"
serde = { version = "1", features = ["derive"] }
toml = "0.9"
