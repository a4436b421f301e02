[package]
name = "catalogue"
version = "0.1.0"
edition = "2021"
publish = false

[dependencies]
dirs = "*"
log = "*"
pretty_env_logger = "*"
