[package]
name = "chunk_codec"
version = "0.1.0"
edition = "2021"
publish = false

[dependencies]
bytes = "1"
config = "*"
env_logger = "*"
futures = "0.3"
log = "0.4"
serde = { version = "1", features = ["derive"] }
tokio = { version = "1", features = ["macros", "net", "rt-multi-thread", "sync"] }
tokio-util = { version = "0.7", features = ["codec"] }
zmq = "*"
