[package]
name = "balancer"
version = "0.1.0"
edition = "2021"
publish = false

[dependencies]
cosmwasm-std = "=1.5.11"
cw-asset = "=3.1.1"
cw-storage-plus = "=1.2.0"
abstract-core = { version = "=0.21.0", default-features = false }
serde = { version = "=1.0.229", features = ["derive"] }
schemars = "=0.8.22"
cosmwasm-schema = "=1.5.11"
