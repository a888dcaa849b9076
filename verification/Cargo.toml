[package]
name = "database_backups"
version = "0.1.0"
edition = "2021"
publish = false

[dependencies]
anyhow = "1"
axum = "0.8"
chrono = "0.4"
futures = "0.3"
serde = { version = "1", features = ["derive"] }
tokio = { version = "1", features = ["fs", "io-util", "rt", "time"] }
tower_governor = "0.8"
tracing = "0.1"
