[package]
name = "curator"
version = "0.1.0"
edition = "2021"
publish = false

[dependencies]
actix-files = "0.6"
actix-rt = "2"
actix-server = "2"
actix-web = { version = "4", default-features = false, features = ["macros"] }
anyhow = "1"
bollard = { version = "0.13", default-features = false }
bytes = "1"
chrono = { version = "0.4", features = ["serde"] }
clap = "2"
ctrlc = "3"
env_logger = "0.9"
error-chain = "0.12"
futures = "0.3"
hyper = { version = "0.14", features = ["client", "http1", "tcp", "runtime", "stream"] }
log = "0.4"
log-derive = "0.4"
serde = { version = "1", features = ["derive"] }
serde_json = "1"
tar = "0.4"
tempfile = "3"
termion = "1"
thiserror = "1"
tokio = { version = "1", features = ["full"] }
tokio-stream = { version = "0.1", features = ["sync"] }
tokio-util = { version = "0.7", features = ["codec", "io"] }
uuid = { version = "1", features = ["v4", "serde"] }
