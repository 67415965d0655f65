[package]
name = "pastemaxx"
version = "0.1.0"
edition = "2021"
publish = false

[dependencies]
sha2 = "0.10"
image = { version = "0.25", default-features = false, features = ["png"] }
serde = { version = "1", features = ["derive"] }
serde_json = "1"
rusqlite = { version = "*", features = ["bundled"] }
