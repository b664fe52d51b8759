[package]
name = "tzindexer"
version = "0.1.0"
edition = "2021"
publish = false

[dependencies]
clap = "2"
dotenv = "0.15"
env_logger = "0.9"
log = "0.4"
serde = { version = "1", features = ["derive"] }
serde_json = "1"
reqwest = { version = "0.11", default-features = false, features = ["blocking"] }
flume = "0.10"
postgres = "0.19"
