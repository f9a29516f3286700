[package]
name = "bevy_rbrb"
version = "0.1.0"
edition = "2021"
publish = false

[dependencies]
bevy_app = "0.5"
bevy_ecs = "0.5"
bevy_reflect = "0.5"
bincode = "1"
bson = "2"
derive_more = "0.99"
rbrb = "*"
serde = { version = "1", features = ["derive"] }
