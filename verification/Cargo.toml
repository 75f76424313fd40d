[package]
name = "starling"
version = "0.1.0"
edition = "2021"
publish = false

[dependencies]
uuid = { version = "=1.27.0", features = ["v4"] }
serde = { version = "*", features = ["derive"] }
serde_yaml = "=0.9.34"
toml = "*"
tokio = { version = "=1.53.2", features = ["full"] }
notify = "=8.2.0"
axum = "=0.8.9"
walkdir = "*"
futures = "*"
crossbeam-queue = "*"
directories = "*"
tracing = "*"
tracing-subscriber = "*"
tracing-appender = "*"
thiserror = "*"
fmterr = "*"
bincode = "=1.3.3"
parking_lot = "*"
