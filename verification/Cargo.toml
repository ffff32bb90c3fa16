[package]
name = "image_encryption"
version = "0.1.0"
edition = "2021"
publish = false

[dependencies]
rand = { version = "0.8", features = ["small_rng"] }
image = "0.24"
clap = { version = "4", features = ["derive"] }
