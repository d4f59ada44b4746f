[package]
name = "liasiondb"
version = "0.1.0"
edition = "2021"
publish = false

[dependencies]
indexmap = "*"
axum = "*"
serde = { version = "*", features = ["derive"] }
serde_json = "*"
tokio = { version = "*", features = ["rt-multi-thread", "macros", "net", "fs"] }
tracing = "*"
tracing-subscriber = { version = "*", features = ["env-filter"] }
