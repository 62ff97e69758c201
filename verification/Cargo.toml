[package]
name = "resume_pipeline"
version = "0.1.0"
edition = "2021"
publish = false

[dependencies]
uuid = { version = "*", features = ["v4"] }
serde = { version = "*", features = ["derive"] }
serde_json = "*"
tokio = { version = "*", features = ["full"] }
axum = "*"
rdkafka = "*"
qdrant-client = "*"
rust-bert = "*"
tracing = "*"
tracing-subscriber = "*"
