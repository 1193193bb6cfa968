[package]
name = "bevy_extrude_mesh"
version = "0.1.0"
edition = "2021"
publish = false

[dependencies]
bevy = { version = "=0.13.2", default-features = false }
lerp = "=0.5.0"
