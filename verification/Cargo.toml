[package]
name = "betting"
version = "0.1.0"
edition = "2021"
publish = false

[dependencies]
anyhow = "1"
chrono = "0.4"
confy = "*"
env_logger = "*"
itertools = "*"
lazy_static = "1"
log = "0.4"
rusqlite = { version = "*", features = ["bundled"] }
serde = { version = "1", features = ["derive"] }
serde_json = "1"
serenity = "0.12"
shellwords = "1"
tokio = { version = "1", features = ["macros", "rt-multi-thread", "time"] }
