[package]
name = "hive-tracker"
version = "0.1.0"
edition = "2021"
publish = false

[dependencies]
anyhow = "1"
aquatic_peer_id = "*"
axum = "0.8"
clap = { version = "4", features = ["derive"] }
dashmap = "6"
prometheus = { version = "0.14", default-features = false }
serde = { version = "1", features = ["derive"] }
sqlx = { version = "0.8", default-features = false, features = ["runtime-tokio", "sqlite"] }
subtle = "2"
thiserror = "2"
tokio = { version = "1", features = ["full"] }
toml = "0.8"
tracing = "0.1"
tracing-subscriber = { version = "0.3", features = ["env-filter"] }
