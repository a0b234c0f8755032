[package]
name = "producer"
version = "0.1.0"
edition = "2021"
publish = false

[dependencies]
rppal = "*"
anyhow = "1"
reqwest = { version = "*", default-features = false, features = ["json"] }
serde = { version = "1", features = ["derive"] }
serde_yaml = "*"
time = "*"
tokio = { version = "1", features = ["rt-multi-thread", "macros"] }
uuid = { version = "1", features = ["serde"] }
