[package]
name = "admin_bridge"
version = "0.1.0"
edition = "2021"
publish = false

[dependencies]
ws = "=0.9.2"
crossbeam = "=0.8.5"
serde_json = "=1.0.151"
jsonrpc-core = "=18.0.0"

[dev-dependencies]
rmp-serde = "=1.3.1"
serde = "=1.0.229"
log = "*"
