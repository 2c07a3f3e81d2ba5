[package]
name = "shamir_mpc"
version = "0.1.0"
edition = "2021"
publish = false

[dependencies]
rand = "0.8"
clap = { version = "4", features = ["derive"] }
serde_json = "1"
env_logger = "0.11"
log = "0.4"
rustls = { version = "0.23", default-features = false, features = ["ring", "std"] }
anyhow = "1"
thiserror = "1"
