[package]
name = "reranklab"
version = "0.1.0"
edition = "2021"
publish = false

[dependencies]
anyhow = "1"
async-graphql = "*"
async-graphql-axum = "*"
async-trait = "0.1"
axum = "*"
clap = { version = "4", features = ["derive", "env"] }
dashmap = "*"
dotenvy = "0.15"
futures = "0.3"
metrics = "*"
metrics-exporter-prometheus = { version = "*", default-features = false }
parking_lot = "0.12"
reqwest = { version = "0.12", default-features = false, features = ["json", "rustls-tls"] }
serde = { version = "1", features = ["derive"] }
serde_json = "1"
thiserror = "2"
tokio = { version = "1", features = ["macros", "rt-multi-thread", "time", "sync", "net", "signal"] }
tokio-stream = { version = "0.1", features = ["sync"] }
tracing = "0.1"
tracing-subscriber = { version = "0.3", features = ["json", "env-filter", "fmt"] }
