[package]
name = "arx"
version = "0.1.0"
edition = "2021"
publish = false

[dependencies]
anyhow = "=1.0.104"
clap = { version = "=4.6.7", features = ["derive"] }
color-print = "=0.3.7"
indicatif = "=0.18.6"
jubako = { version = "=0.4.1", features = ["clap", "lz4", "lzma", "zstd"] }
log = "=0.4.34"
tempfile = "=3.27.0"
