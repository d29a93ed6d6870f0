[package]
name = "dupfind"
version = "0.1.0"
edition = "2021"
publish = false

[dependencies]
md5 = "0.7"
log = "0.4"
env_logger = "*"
clap = { version = "4", features = ["derive"] }
