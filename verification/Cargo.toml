[package]
name = "bitcask"
version = "0.1.0"
edition = "2021"
publish = false

[dependencies]
crc32fast = "1"
anyhow = "1"
fs2 = "0.4"
libc = "0.2"
