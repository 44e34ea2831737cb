[package]
name = "docversion"
version = "0.1.0"
edition = "2021"
publish = false

[dependencies]
similar = "2"
uuid = { version = "1", features = ["v4"] }
path-slash = "0.2"
chrono = { version = "0.4", features = ["serde"] }
serde = { version = "1", features = ["derive"] }
bincode = "1"
bytes = "1"
tokio = { version = "1", features = ["full"] }
rusqlite = { version = "*", features = ["bundled"] }
notify = "*"
walkdir = "2"
anyhow = "1"
parking_lot = "0.12"
once_cell = "1"
tracing = "0.1"
