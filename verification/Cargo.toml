[package]
name = "fastnode"
version = "0.1.0"
edition = "2021"
publish = false

[dependencies]
anyhow = "1"
roaring = "*"
rusqlite = { version = "*", features = ["bundled"] }
serde = { version = "1", features = ["derive"] }
serde_json = { version = "1", features = ["arbitrary_precision"] }
