[package]
name = "rapier_cloth"
version = "0.1.0"
edition = "2021"
publish = false

[dependencies]
glam = "=0.33.12"
rapier3d = "=0.34.0"
serde = { version = "=1.0.229", features = ["derive"] }
serde_json = "=1.0.154"
axum = { version = "=0.8.9", features = ["ws"] }
tokio = { version = "=1.54.1", features = ["rt-multi-thread", "macros", "net", "time"] }
