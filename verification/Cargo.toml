[package]
name = "world_tree"
version = "0.1.0"
edition = "2021"
publish = false

[dependencies]
semaphore-rs = "=0.6.0"
semaphore-rs-poseidon = "=0.6.0"
semaphore-rs-utils = "=0.6.0"
semaphore-rs-trees = "=0.6.0"
ruint = "=1.20.1"
axum = "=0.8.9"
tokio = { version = "=1.53.2", features = ["full"] }
clap = { version = "=4.6.7", features = ["derive"] }
eyre = "=0.6.14"
futures = "=0.3.34"
serde = { version = "=1.0.229", features = ["derive"] }
serde_json = "=1.0.151"
