[package]
name = "subscriber"
version = "0.1.0"
edition = "2021"
publish = false

[dependencies]
chrono = "=0.4.45"
env_logger = "=0.5.13"
futures = "=0.1.31"
hyper = "=0.11.27"
kankyo = "=0.3.0"
log = "=0.4.34"
rumqtt = "=0.10.1"
rusqlite = { version = "0.31", features = ["bundled", "chrono"] }
serde_json = "=1.0.154"
tokio-core = "=0.1.18"
url = "=1.7.2"
