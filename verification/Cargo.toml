[package]
name = "paras"
version = "0.1.0"
edition = "2021"
publish = false

[dependencies]
serde = { version = "*", features = ["derive"] }
parity-scale-codec = { version = "*", features = ["derive"] }
