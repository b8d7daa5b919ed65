[package]
name = "frame_delta"
version = "0.1.0"
edition = "2021"
publish = false

[dependencies]
lz4_flex = { version = "0.11", default-features = false, features = ["std", "safe-encode", "safe-decode"] }

[dev-dependencies]
rand = "0.8"
