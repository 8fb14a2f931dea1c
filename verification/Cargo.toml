[package]
name = "rdkit_rs"
version = "0.1.0"
edition = "2021"
publish = false

[dependencies]
bitflags = "=1.3.2"
serde = { version = "=1.0.229", features = ["derive"] }
serde_json = "=1.0.154"
