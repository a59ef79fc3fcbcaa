[package]
name = "object_system"
version = "0.1.0"
edition = "2021"
publish = false

[dependencies]
rustc-serialize = "0.3"
mio = "0.4"
time = "0.1"
log = "0.3"
env_logger = "0.3"
