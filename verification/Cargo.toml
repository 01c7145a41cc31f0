[package]
name = "quack"
version = "0.1.0"
edition = "2021"
publish = false

[dependencies]
bincode = "1.3"
clap = { version = "4", features = ["derive"] }
env_logger = "0.10"
log = "0.4"
tokio = { version = "1", features = ["macros", "net", "rt", "sync", "time"] }
