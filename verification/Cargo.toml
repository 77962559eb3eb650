[package]
name = "markov_text"
version = "0.1.0"
edition = "2021"
publish = false

[dependencies]
anyhow = "1"
axum = "0.8"
axum-valid = "*"
config = "0.15"
deadpool-postgres = { version = "0.14", features = ["serde"] }
futures = "0.3"
rand = "0.9"
rand_distr = "0.5"
serde = { version = "1", features = ["derive"] }
tokio = { version = "1", features = ["full"] }
tower-http = { version = "0.6", features = ["cors", "trace"] }
tracing = "0.1"
tracing-appender = "0.2"
tracing-subscriber = { version = "0.3", features = ["env-filter", "json"] }
validator = { version = "0.20", features = ["derive"] }
