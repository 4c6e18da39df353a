[package]
name = "hush"
version = "0.1.0"
edition = "2021"
publish = false

[dependencies]
sha2 = "0.10"
crossbeam-channel = "0.5"
glob = "0.3"
log = "0.4"
env_logger = "0.11"
