[package]
name = "world_tiling"
version = "0.1.0"
edition = "2021"
publish = false

[dependencies]
colored = "3"
indicatif = "0.17"
serde = { version = "1", features = ["derive"] }
serde_json = "1"
