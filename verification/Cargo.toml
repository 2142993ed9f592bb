[package]
name = "rdiff_rust"
version = "0.1.0"
edition = "2021"
publish = false

[dependencies]
bincode = "1"
blake2 = "0.9"
clap = { version = "3", features = ["derive"] }
serde = { version = "1", features = ["derive"] }
