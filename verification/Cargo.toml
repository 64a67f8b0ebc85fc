[package]
name = "pkg_extractor"
version = "0.1.0"
edition = "2021"
publish = false

[dependencies]
apple-flat-package = "*"
log = "*"
env_logger = "*"
structopt = "*"
