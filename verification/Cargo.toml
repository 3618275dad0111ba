[package]
name = "pathseeker"
version = "0.1.0"
edition = "2021"
publish = false

[dependencies]
bevy = { version = "=0.10.1", default-features = false, features = ["bevy_asset", "bevy_core_pipeline", "bevy_pbr", "bevy_render"] }
bevy_turborand = "=0.5.0"
big-brain = "=0.17.0"
bracket-pathfinding = "=0.8.7"
rand = { version = "=0.8.8", features = ["small_rng"] }
smallvec = "=1.16.4"
