[package]
name = "taskflow"
version = "0.1.0"
edition = "2021"
publish = false

[dependencies]
serde_json = "1"
queues = "1"
rusty_pool = "0.7"
tokio = { version = "1", features = ["rt-multi-thread"] }
reqwest = { version = "*", default-features = false, features = ["rustls-tls"] }
