[package]
name = "myfs"
version = "0.1.0"
edition = "2021"
publish = false

[dependencies]
chrono = "0.4"
fuser = "*"
libc = "0.2"
log = "0.4"
env_logger = "*"
thiserror = "*"
