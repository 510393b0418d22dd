[package]
name = "fs_timeline"
version = "0.1.0"
edition = "2021"
publish = false

[dependencies]
flate2 = "1"
ioctls = "*"
log = "0.4"
sha2 = "0.10"
