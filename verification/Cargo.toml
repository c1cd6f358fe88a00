[package]
name = "recast"
version = "0.1.0"
edition = "2021"
publish = false

[dependencies]
slotmap = "1"
glam = "0.29"
bevy = { version = "0.16", default-features = false }
