[package]
name = "tricord"
version = "0.1.0"
edition = "2021"
publish = false

[dependencies]
clap = { version = "4", features = ["derive"] }
env_logger = "0.11"
libc = "0.2"
libproc = "0.14"
procfs = "0.17"
serde = { version = "1", features = ["derive"] }
serde_json = "1"
signal-hook = "0.3"
