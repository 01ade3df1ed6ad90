[package]
name = "octree"
version = "0.1.0"
edition = "2021"
publish = false

[dependencies]
amethyst = { version = "=0.15.3", default-features = false, features = ["vulkan", "renderer"] }
itertools = "0.9"
