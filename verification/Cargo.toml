[package]
name = "reverse_cluster"
version = "0.1.0"
edition = "2021"
publish = false

[dependencies]
openraft = { version = "=0.9.25", features = ["generic-snapshot-data", "serde", "storage-v2"] }
rayon = "=1.12.0"
serde = { version = "=1.0.229", features = ["derive"] }
serde_json = "=1.0.154"
tokio = { version = "=1.54.1", features = ["rt", "rt-multi-thread", "sync", "time"] }
tonic = { version = "=0.12.3", default-features = false }
