[package]
name = "blockchain_rust"
version = "0.1.0"
edition = "2021"
publish = false

[dependencies]
sha2 = "0.10"
sled = "0.34"
chrono = "0.4"
clap = { version = "4", features = ["derive"] }
