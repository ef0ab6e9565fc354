[package]
name = "rati"
version = "0.1.0"
edition = "2021"
publish = false

[dependencies]
aws-config = "1"
aws-sdk-s3 = "1"
axum = "0.8"
bytes = "1"
clap = { version = "4", features = ["derive"] }
flate2 = "1"
futures-util = "0.3"
http-body = "1"
rustc-hash = "2"
serde = { version = "1", features = ["derive"] }
thiserror = "2"
tokio = { version = "1", features = ["macros", "net", "rt-multi-thread", "signal"] }
tower-http = { version = "0.6", features = ["cors", "trace"] }
tracing = "0.1"
tracing-subscriber = "0.3"
zstd = "0.13"
