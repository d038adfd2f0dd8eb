[package]
name = "unidpp_resolver"
version = "0.1.0"
edition = "2021"
publish = false

[dependencies]
serde_json = "1"
axum = "0.8"
tokio = { version = "1", features = ["rt-multi-thread", "macros", "net", "time", "sync", "io-util"] }
