[package]
name = "tiled_scene"
version = "0.1.0"
edition = "2021"
publish = false

[dependencies]
bevy = { version = "0.14", default-features = false, features = ["bevy_asset"] }
tiled = { version = "0.11", default-features = false }
thiserror = { version = "1" }
