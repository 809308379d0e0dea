[package]
name = "rstree"
version = "0.1.0"
edition = "2021"
publish = false

[dependencies]
regex = "*"
log = "*"
env_logger = "*"
clap = "*"
