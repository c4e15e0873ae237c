[package]
name = "connect_proxy"
version = "0.1.0"
edition = "2021"
publish = false

[dependencies]
anyhow = "*"
async-trait = "*"
env_logger = "*"
log = "*"
tokio = { version = "*", features = ["net", "io-util", "rt-multi-thread", "macros", "time"] }
