[package]
name = "gltf_explorer"
version = "0.1.0"
edition = "2021"
publish = false

[dependencies]
gltf = "*"
clap = { version = "*", features = ["derive"] }
log = "*"
fern = "*"
chrono = "*"
