[package]
name = "axum_wsb"
version = "0.1.0"
edition = "2021"
publish = false

[dependencies]
axum = { version = "=0.7.9", features = ["ws"] }
axum-typed-websockets = "=0.6.0"
futures-util = { version = "=0.3.34", features = ["sink"] }
serde = "=1.0.229"
tokio = { version = "=1.54.1", features = ["sync"] }

[dev-dependencies]
tokio = { version = "=1.54.1", features = ["rt", "rt-multi-thread", "sync", "time"] }
