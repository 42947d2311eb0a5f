[package]
name = "phones_fyi"
version = "0.1.0"
edition = "2021"
publish = false

[dependencies]
glob = "0.3"
kuchikiki = "*"
djb2 = "*"
serde = { version = "1", features = ["derive"] }
serde_json = "1"
toml = "*"
clap = { version = "4", features = ["derive"] }
env_logger = "*"
log = "*"
anyhow = "1"
handlebars = "*"
tokio = { version = "1", features = ["fs", "io-util", "macros", "rt-multi-thread"] }
tokio-stream = "*"
tokio-util = { version = "*", features = ["io"] }
reqwest = { version = "*", default-features = false, features = ["rustls-tls", "stream"] }
