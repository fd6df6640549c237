[package]
name = "cassettedb"
version = "0.1.0"
edition = "2021"
publish = false

[dependencies]
byteorder = "1"
crc32fast = "1"
chrono = "0.4"
uuid = { version = "1", features = ["v4"] }
serde = { version = "1", features = ["derive"] }
serde_json = "1"
clap = { version = "4", features = ["derive"] }
tokio = { version = "1", features = ["rt-multi-thread", "net", "io-util", "sync", "macros", "time"] }
env_logger = "0.11"
thiserror = "1"
anyhow = "1"
crossbeam-channel = "0.5"
regex = "1"
rand = "0.8"
prometheus = { version = "0.13", default-features = false }
jsonpath-rust = "0.5"
backtrace = "0.3"

[dev-dependencies]
tempfile = "3"
