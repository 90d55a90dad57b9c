[package]
name = "mdnote"
version = "0.1.0"
edition = "2021"
publish = false

[dependencies]
ulid = "1"
chrono = "0.4"
rusqlite = { version = "0.31", features = ["bundled"] }
