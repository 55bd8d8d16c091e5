[package]
name = "task_store"
version = "0.1.0"
edition = "2021"
publish = false

[dependencies]

[dev-dependencies]
serde_json = "1"
