[package]
name = "rhythm_core"
version = "0.1.0"
edition = "2021"
publish = false

[dependencies]
superslice = "1"
amethyst = { version = "0.15", default-features = false, features = ["animation", "renderer", "empty"] }
serde = { version = "1", features = ["derive"] }
failure = "0.1"
glsl-layout = "0.3"
lazy_static = "1"
