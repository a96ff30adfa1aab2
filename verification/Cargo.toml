[package]
name = "deepspace"
version = "0.1.0"
edition = "2021"
publish = false

[dependencies]
anyhow = "=1.0.104"
bevy = { version = "0.17", default-features = false, features = ["bevy_window", "bevy_ui", "bevy_ui_render", "bevy_text", "bevy_sprite", "bevy_sprite_render", "bevy_core_pipeline", "bevy_render", "bevy_state", "bevy_asset"] }
bevy_simple_text_input = "0.12"
bincode = { version = "=2.0.1", features = ["serde"] }
crossbeam = "=0.8.5"
rand = "=0.9.5"
serde = { version = "=1.0.229", features = ["derive"] }
tokio = { version = "=1.54.1", features = ["rt-multi-thread", "macros", "net", "sync", "time"] }
