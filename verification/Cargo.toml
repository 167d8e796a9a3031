[package]
name = "tpu"
version = "0.1.0"
edition = "2021"
publish = false

[dependencies]
crc32fast = "1"
encoding_rs = "0.8"
globset = "0.4"
harrier = "*"
md-5 = "*"
redwing = "*"
regex = "1"
serde_json = "1"
similar = "2"
walkdir = "2"
clap = { version = "4", features = ["derive"] }

[dev-dependencies]
tempfile = "3"
