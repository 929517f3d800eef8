[package]
name = "chunk_canvas"
version = "0.1.0"
edition = "2021"
publish = false

[dependencies]
bevy = { version = "*", default-features = false, features = ["bevy_render", "bevy_sprite", "bevy_asset", "bevy_image"] }
