[package]
name = "remcached"
version = "0.1.0"
edition = "2021"
publish = false

[dependencies]
bytes = "0.3"
env_logger = "0.3"
log = "0.3"
mio = "0.5"
nom = "2"
