[package]
name = "bevy_save"
version = "0.1.0"
edition = "2021"
publish = false

[dependencies]
semver = "1"
serde = { version = "1", features = ["derive"] }
serde_json = "1"
rmp-serde = "1"
thiserror = "2"
bevy = { version = "0.16", default-features = false, features = ["bevy_scene"] }
