[package]
name = "loco_tasks"
version = "0.1.0"
edition = "2021"
publish = false

[dependencies]
async-trait = "0.1"
axum = "*"
axum-prometheus = "*"
serde = { version = "1", features = ["derive"] }
tracing = "0.1"
