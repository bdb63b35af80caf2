[package]
name = "svoyak"
version = "0.1.0"
edition = "2021"
publish = false

[dependencies]
html-escape = "*"
serde = { version = "*", features = ["derive"] }
serde_json = "*"
borsh = { version = "*", features = ["derive"] }
sled = "*"
tokio = { version = "*", features = ["full"] }
tokio-stream = "*"
futures = "*"
log = "*"
env_logger = "*"
async-recursion = "*"
reqwest = { version = "*", default-features = false }
telegram-bot = "*"
