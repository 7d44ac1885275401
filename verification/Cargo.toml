[package]
name = "star_polygon"
version = "0.1.0"
edition = "2021"
publish = false

[dependencies]
byteorder = "1"
csv = "1"
env_logger = "0.10"
log = "0.4"
structopt = "0.3"
