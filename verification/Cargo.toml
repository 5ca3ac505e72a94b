[package]
name = "graph_notes"
version = "0.1.0"
edition = "2021"
publish = false

[dependencies]
sha2 = "0.10"
hex = "0.4"
regex-syntax = "0.8"
serde = { version = "1", features = ["derive"] }
serde_json = "1"
serde_yaml = "0.9"
chrono = "0.4"
thiserror = "2"
tokio = { version = "1", features = ["fs", "rt-multi-thread", "macros", "sync", "time"] }
notify = { version = "8", default-features = false }
