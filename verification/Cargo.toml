[package]
name = "pullcept"
version = "0.1.0"
edition = "2021"
publish = false

[dependencies]
serde = { version = "1", features = ["derive"] }
serde_json = "1"
uuid = { version = "1", features = ["v4"] }
parking_lot = "0.12"
portable-pty = "0.8"
futures-util = { version = "0.3", default-features = false, features = ["sink", "std"] }
tokio = { version = "1", features = ["net", "rt", "sync", "io-util", "time", "macros"] }
tokio-tungstenite = "0.26"
