[package]
name = "packet_pipeline"
version = "0.1.0"
edition = "2021"
publish = false

[dependencies]
aes = "0.8"
bytes = "0.5"
cfb8 = "0.8"
crossbeam-queue = "0.2"
crossbeam-utils = "0.7"
flate2 = { version = "1", default-features = false, features = ["zlib"] }
libc = "0.2"
memmap = "0.7"
nom = "5"
tokio = { version = "0.2", features = ["tcp", "io-util"] }
