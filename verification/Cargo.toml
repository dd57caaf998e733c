[package]
name = "fjall"
version = "0.1.0"
edition = "2021"
publish = false

[dependencies]
chrono = { version = "0.4", default-features = false, features = ["clock"] }
crc32fast = "1"
log = "0.4"
rand = "0.8"
std-semaphore = "0.1"
