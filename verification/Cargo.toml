[package]
name = "gostly"
version = "0.3.0"
edition = "2021"
publish = false

[dependencies]
arc-swap = "1"
axum = "0.7"
axum-prometheus = "0.7"
chrono = "0.4"
clap = { version = "4", features = ["derive", "env"] }
futures = "0.3"
http-body-util = "0.1"
metrics = "0.23"
notify = "6"
parking_lot = "0.12"
rand = "0.8"
reqwest = { version = "0.12", default-features = false, features = ["json", "rustls-tls"] }
serde = { version = "1", features = ["derive"] }
serde_json = "1"
signal-hook = "0.3"
signal-hook-tokio = { version = "0.3", features = ["futures-v0_3"] }
thiserror = "1"
tokio = { version = "1", features = ["full"] }
tower-http = { version = "0.6", features = ["trace"] }
tracing = "0.1"
tracing-subscriber = { version = "0.3", features = ["json"] }
