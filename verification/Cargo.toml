[package]
name = "eve_orm"
version = "0.1.0"
edition = "2021"
publish = false

[dependencies]
rusqlite = { version = "0.32.1", features = ["bundled"] }
