[package]
name = "nextzip"
version = "0.1.0"
edition = "2021"
publish = false

[dependencies]
anyhow = "1"
bincode = "1"
blake3 = "1"
byteorder = "1"
clap = { version = "4", features = ["derive"] }
csv = "1"
flate2 = "1"
serde = { version = "1", features = ["derive"] }
serde_json = "1"
tempfile = "3"
zstd = "0.13"
