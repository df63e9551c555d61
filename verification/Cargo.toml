[package]
name = "tikv_dst"
version = "0.1.0"
edition = "2021"
publish = false

[dependencies]
async-speed-limit = "0.4"
bytes = "1"
lazy_static = "1"
libc = "0.2"
parking_lot = "0.12"
rand = "0.8"
time = "0.3"
tokio = { version = "1", features = ["sync"] }
tokio-executor = "0.1"
tokio-timer = "0.2"

[dev-dependencies]
serde_json = "1"
