[package]
name = "altair-wf"
version = "0.1.0"
edition = "2021"
publish = false

[dependencies]
anyhow = "1"
async-trait = "0.1"
futures = "0.3"
serde = { version = "1", features = ["derive"] }
thiserror = "2"
tokio = { version = "1", features = ["rt", "macros", "time", "sync"] }
tracing = "0.1"

[dev-dependencies]
serde_json = "1"
