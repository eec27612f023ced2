[package]
name = "simple_pastebin"
version = "0.1.0"
edition = "2021"
publish = false

[dependencies]
regex = "1"
axum = "0.7"
chrono = "0.4"
clap = { version = "4", features = ["derive"] }
colored = "2"
env_logger = "0.11"
log = "0.4"
rusqlite = { version = "0.31", features = ["bundled"] }
serde = { version = "1", features = ["derive"] }
tokio = { version = "1", features = ["full"] }
toml = "0.8"
tower-http = { version = "0.5", features = ["fs"] }
