[package]
name = "tiling"
version = "0.1.0"
edition = "2021"
publish = false

[dependencies]
anyhow = "1"
egui = { version = "0.25", default-features = false }
kurbo = "0.10"
