[package]
name = "enum_spanner"
version = "0.1.0"
edition = "2021"
publish = false

[dependencies]
bit-set = "0.5"
bit-vec = "0.6"
serde = { version = "1", features = ["derive"] }
