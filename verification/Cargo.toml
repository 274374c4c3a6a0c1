[package]
name = "blocks"
version = "0.1.0"
edition = "2021"
publish = false

[dependencies]
uuid = { version = "*", features = ["v7"] }
chrono = "*"
serde = { version = "*", features = ["derive"] }
serde_json = "*"
rusqlite = "*"
r2d2 = "*"
r2d2_sqlite = { version = "*", features = ["bundled"] }
