[package]
name = "octopus_log"
version = "0.1.0"
edition = "2021"
publish = false

[dependencies]
crc32c = "*"
libc = "*"
staticvec = "*"
