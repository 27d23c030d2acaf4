[package]
name = "twitter_and_me"
version = "0.1.0"
edition = "2021"
publish = false

[dependencies]
base64 = "0.13"
log = "0.4"
reqwest = { version = "0.11", default-features = false, features = ["json", "gzip"] }
serde = { version = "1", features = ["derive"] }
serde_json = "1"
simple_logger = "*"
tokio = { version = "1", features = ["macros", "rt-multi-thread"] }
