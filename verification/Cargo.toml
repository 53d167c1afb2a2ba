[package]
name = "uwu_wiki"
version = "0.1.0"
edition = "2021"
publish = false

[dependencies]
async-trait = "0.1"
blake3 = { version = "1", features = ["pure"] }
chrono = "0.4"
markdown = { version = "1", features = ["serde"] }
parking_lot = "0.12"
rand = "0.8"
serde = { version = "1", features = ["derive"] }
serde_json = "1"
serde_yaml = "0.9"
thiserror = "1"
tokio = { version = "1", features = ["rt", "macros", "sync", "time"] }
tracing = "0.1"
uuid = { version = "1", features = ["v4", "v7"] }
