[package]
name = "multi-machine-dedup"
version = "0.1.0"
edition = "2021"
publish = false

[dependencies]
clap = { version = "3", features = ["derive"] }
crc = "3"
env_logger = "0.10"
log = "0.4"
rusqlite = "0.29"
tree_magic_mini = "3"
walkdir = "2"
