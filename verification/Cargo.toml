[package]
name = "gametesting"
version = "0.1.0"
edition = "2021"
publish = false

[dependencies]
rand = { version = "=0.8.8", features = ["small_rng"] }
png = "=0.17.16"
bincode = "=1.3.3"
serde = { version = "=1.0.229", features = ["derive"] }
