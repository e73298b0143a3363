[package]
name = "gateway_core"
version = "0.1.0"
edition = "2021"
publish = false

[dependencies]
anyhow = "*"
axum = "*"
freenet-stdlib = "*"
tokio = { version = "*", features = ["rt", "sync", "net", "macros", "rt-multi-thread"] }
tower-http = { version = "*", features = ["trace"] }
tracing = "*"
