[package]
name = "receipt_check"
version = "0.1.0"
edition = "2021"
publish = false

[dependencies]
serde_json = "1"
serde = { version = "1", features = ["derive"] }
log = "0.4"
env_logger = "0.10"
structopt = "0.3"
tokio = { version = "1", features = ["macros", "rt-multi-thread", "sync"] }
warp = { version = "0.3", features = ["tls"] }
reqwest = { version = "0.11", default-features = false, features = ["rustls-tls"] }
