[package]
name = "tile_index"
version = "0.1.0"
edition = "2021"
publish = false

[dependencies]
fnv = "=1.0.7"
cgmath = "=0.17.0"
collision = "=0.20.1"
nav-types = "=0.5.2"
nalgebra = "=0.32.6"
serde = { version = "=1.0.229", features = ["derive"] }
