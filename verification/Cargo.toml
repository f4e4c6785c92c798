[package]
name = "tileworld"
version = "0.1.0"
edition = "2021"
publish = false

[dependencies]
priority-queue = "*"
rand = "0.8"
log = "0.4"
env_logger = "*"
bracket-lib = "0.8"
