[package]
name = "carbon"
version = "0.1.0"
edition = "2021"
publish = false

[dependencies]
anyhow = "=1.0.104"
base64 = "=0.22.1"
blake3 = "=1.8.7"
colored = "=3.1.1"
crossbeam-channel = "=0.5.17"
directories = "=6.0.0"
env_logger = "=0.11.11"
getrandom = "=0.3.4"
log = "=0.4.35"
notify = "=8.2.1"
path-clean = "=1.0.1"
rbx_dom_weak = "=4.2.0"
reqwest = { version = "=0.13.5", default-features = false, features = ["blocking"] }
rmp-serde = "=1.3.1"
serde = { version = "=1.0.229", features = ["derive"] }
serde_bytes = "=0.11.19"
serde_json = "=1.0.154"
toml = "=1.1.8"
unicode-normalization = "=0.1.26"
uuid = { version = "=1.29.0", features = ["v4"] }
