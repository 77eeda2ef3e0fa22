[package]
name = "mdutil"
version = "0.1.0"
edition = "2021"
publish = false

[dependencies]
anyhow = "1"
base64 = "0.13"
env_logger = "0.9"
futures = "0.3"
humantime = "2"
log = "0.4"
regex = "1"
reqwest = "0.11"
structopt = "0.3"
tokio = { version = "1", features = ["full"] }
url = "2"
