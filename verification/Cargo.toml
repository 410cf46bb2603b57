[package]
name = "block_packer"
version = "0.1.0"
edition = "2021"
publish = false

[dependencies]
env_logger = "*"
glob = "*"
log = "*"
simple-error = "*"
