[package]
name = "agent_transport"
version = "0.1.0"
edition = "2021"
publish = false

[dependencies]
bytes = "1"
tokio = { version = "1", features = ["net", "rt", "rt-multi-thread", "io-util"] }
service-binding = "*"
