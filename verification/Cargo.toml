[package]
name = "file_dedup"
version = "0.1.0"
edition = "2021"
publish = false

[dependencies]
clap = { version = "4", features = ["derive"] }
crossbeam-channel = "0.5"
data-encoding = "2"
env_logger = "*"
grouping_by = "*"
log = "0.4"
ring = "0.17"
