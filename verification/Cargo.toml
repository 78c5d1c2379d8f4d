[package]
name = "trip_query"
version = "0.1.0"
edition = "2021"
publish = false

[dependencies]
axum = "0.8"
csv = "1"
env_logger = "0.11"
serde = { version = "1", features = ["derive"] }
serde_json = "1"
tokio = { version = "1", features = ["rt-multi-thread", "net", "macros"] }
tower-http = { version = "0.6", features = ["cors"] }
