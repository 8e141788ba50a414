[package]
name = "coredns_k8s_sync"
version = "0.1.0"
edition = "2021"
publish = false

[dependencies]
base64 = "0.22"
env_logger = "0.11"
getopts = "0.2"
log = "0.4"
notify = "6"
reqwest = { version = "0.12", features = ["json"] }
serde = { version = "1", features = ["derive"] }
serde_json = "1"
tokio = { version = "1", features = ["full"] }
