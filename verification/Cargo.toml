[package]
name = "actor_apps"
version = "0.1.0"
edition = "2021"
publish = false

[dependencies]
mm1 = "*"
mm1-logger = "*"
futures = "0.3"
serde = { version = "1", features = ["derive"] }
serde_yaml = "0.9"
thiserror = "*"
tokio = { version = "1", features = ["io-util", "io-std", "net", "sync", "time", "rt", "macros"] }
