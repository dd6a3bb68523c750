[package]
name = "museek"
version = "0.1.0"
edition = "2021"
publish = false

[dependencies]
bytes = "0.4"
byteorder = "1"
flate2 = "1"
md5 = "0.6"
rand = "0.6"
tokio = "0.1"
futures = "0.1"
log = "0.4"
env_logger = "0.6"
