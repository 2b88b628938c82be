[package]
name = "smllr"
version = "0.1.0"
edition = "2021"
publish = false

[dependencies]
md5 = "*"
sha3 = "*"
regex = "*"
clap = "*"
log = "*"
env_logger = "*"
