[package]
name = "mothcdc"
version = "0.7.1"
edition = "2021"
publish = false

[dependencies]

[dev-dependencies]
rand = { version = "0.9", features = ["small_rng"] }
