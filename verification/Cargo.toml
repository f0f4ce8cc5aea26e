[package]
name = "doubleentry"
version = "0.1.0"
edition = "2021"
publish = false

[dependencies]
blake3 = "=1.8.7"
serde = { version = "=1.0.229", features = ["derive"] }
thiserror = "=2.0.21"
time = { version = "=0.3.55", features = ["serde"] }
uuid = { version = "=1.29.0", features = ["v7", "serde"] }
