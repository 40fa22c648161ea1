[package]
name = "fix_flow"
version = "0.1.0"
edition = "2021"
publish = false

[dependencies]
fefix = { version = "0.7", features = ["fix44", "json-encoding"] }
serde = { version = "1", features = ["derive"] }
serde_json = "1"
chrono = "0.4"
rand = "0.8"
ringbuf = "0.3"
tokio = { version = "1", features = ["full"] }
