[package]
name = "bookmatch"
version = "0.1.0"
edition = "2021"
publish = false

[dependencies]
clap = "4"
config = "*"
env_logger = "*"
futures-util = "0.3"
log = "0.4"
reqwest = { version = "*", default-features = false }
rust_decimal = "1"
serde = { version = "1", features = ["derive"] }
serde_json = "1"
tokio = { version = "1", features = ["macros", "rt-multi-thread", "sync", "time", "signal", "net"] }
tokio-tungstenite = "*"
url = "2"
