[package]
name = "msg_seedling"
version = "0.4.0"
edition = "2021"
publish = false

[dependencies]
bevy = { version = "0.18", default-features = false, features = ["std", "bevy_asset", "bevy_log"] }
bevy_seedling = { version = "0.7", default-features = false }
rand = { version = "0.9", features = ["small_rng"] }
