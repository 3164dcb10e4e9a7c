[package]
name = "wal"
version = "0.1.0"
edition = "2021"
publish = false

[dependencies]
crc32fast = "*"
url = "*"
libc = "*"
log = "*"
env_logger = "*"
io-uring = "*"
