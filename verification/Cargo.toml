[package]
name = "berryfast"
version = "0.1.0"
edition = "2021"
publish = false

[dependencies]
lru = "*"
serde = { version = "1", features = ["derive"] }
serde_json = "1"
redis = { version = "*", features = ["tokio-comp", "aio"] }
tokio = { version = "1", features = ["full"] }
axum = { version = "0.8", features = ["ws"] }
tower-http = { version = "*", features = ["cors"] }
futures = "0.3"
tracing = "0.1"
tracing-subscriber = { version = "0.3", features = ["env-filter"] }
anyhow = "1"
dotenvy = "*"
signal-hook = "*"
fastnear-primitives = "*"
fastnear-neardata-fetcher = "*"
