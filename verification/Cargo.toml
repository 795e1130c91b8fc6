[package]
name = "bevy_sequential_actions"
version = "0.13.0"
edition = "2021"
publish = false

[dependencies]
bevy_app = { version = "0.14", default-features = false }
bevy_derive = "0.14"
bevy_ecs = { version = "0.14", default-features = false }
bevy_log = "0.14"
bevy_utils = "0.14"
downcast-rs = "1"
