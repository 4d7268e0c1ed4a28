[package]
name = "yab_world"
version = "0.1.0"
edition = "2021"
publish = false

[dependencies]
serde = { version = "1", features = ["derive"] }
serde_json = "1"
crossbeam = "0.8"
log = "0.4"
palette = "0.6"
nalgebra-glm = "0.18"
