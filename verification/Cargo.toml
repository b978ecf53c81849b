[package]
name = "timebank"
version = "0.1.0"
edition = "2021"
publish = false

[dependencies]
axum = "0.6"
csv = "1"
glob = "0.3"
job_scheduler = "1.2"
serde = { version = "1", features = ["derive"] }
serde_json = "1"
sqlx = { version = "0.7", features = ["runtime-tokio", "sqlite"] }
tokio = { version = "1", features = ["macros", "rt-multi-thread"] }
tower-http = { version = "0.4", features = ["cors"] }
tracing = "0.1"
tracing-appender = "0.2"
tracing-subscriber = "0.3"
