[package]
name = "rinha"
version = "0.1.0"
edition = "2021"
publish = false

[dependencies]
memchr = "2"
libc = "0.2"
memmap2 = "0.9"
flate2 = "1"
rand = "0.8"
serde = { version = "1", features = ["derive"] }
serde_json = "1"
