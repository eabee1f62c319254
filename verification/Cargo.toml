[package]
name = "firefly"
version = "0.1.0"
edition = "2021"
publish = false

[dependencies]
dashmap = "6"
rand = "0.8"
smallvec = "1"
parking_lot = "0.12"
rayon = "1"
serde = { version = "1", features = ["derive"] }
serde_json = "1"
enumset = { version = "1", features = ["serde"] }
