[package]
name = "rust_network_mgr"
version = "0.1.0"
edition = "2021"
publish = false

[dependencies]
nftables = "*"
tokio = { version = "*", features = ["full"] }
rtnetlink = "*"
netlink-packet-core = "*"
netlink-packet-route = "*"
futures = "*"
futures-util = "*"
bollard = "*"
serde = { version = "*", features = ["derive"] }
serde_yaml = "*"
directories = "*"
log = "*"
env_logger = "*"
thiserror = "*"
tracing = "*"
