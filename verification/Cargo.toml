[package]
name = "websocket_multiplexor"
version = "0.1.0"
edition = "2021"
publish = false

[dependencies]
async-channel = "2"
bytes = "1"
futures-util = { version = "0.3", default-features = false, features = ["sink", "std"] }
rand = "0.8"
tokio = { version = "1", features = ["io-util", "macros", "rt", "sync"] }
tungstenite = { version = "0.21", default-features = false }
