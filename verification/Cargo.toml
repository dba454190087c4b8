[package]
name = "matching_engine"
version = "0.1.0"
edition = "2021"
publish = false

[dependencies]
axum = { version = "=0.7.9", features = ["ws"] }
chrono = "=0.4.45"
futures = "=0.3.34"
rusteron-archive = "=0.2.16"
serde = { version = "1", features = ["derive"] }
serde_json = "1"
tokio = { version = "1", features = ["full"] }
tower-http = { version = "=0.5.2", features = ["cors", "fs"] }
wincode = { version = "=0.6.3", features = ["derive"] }
