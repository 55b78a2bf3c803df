[package]
name = "peer_transfer"
version = "0.1.0"
edition = "2021"
publish = false

[dependencies]
file-transfer-system = { version = "=0.3.1", features = ["p2p"] }
tokio = { version = "=1.54.1", features = ["io-util", "macros", "net", "rt", "sync"] }

[dev-dependencies]
bincode = "=1.3.3"
