[package]
name = "sliding_game"
version = "0.1.0"
edition = "2021"
publish = false

[dependencies]
toml = "0.8"
bevy = { version = "0.15", default-features = false, features = ["bevy_ui", "bevy_text", "bevy_window", "bevy_state", "bevy_color", "bevy_core_pipeline", "bevy_render", "default_font"] }
