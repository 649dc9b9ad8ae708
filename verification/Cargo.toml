[package]
name = "torrentinfo"
version = "1.0.0"
edition = "2021"
publish = false

[dependencies]
anyhow = "=1.0.104"
chrono = "=0.4.45"
clap = { version = "=4.6.7", features = ["derive"] }
clap_complete = "=4.6.11"
colored = "=3.1.1"
dirs = "=7.0.0"
dunce = "=1.0.5"
number_prefix = "=0.4.0"
sha1 = "=0.10.7"
walkdir = "=2.5.0"

[dev-dependencies]
serde_bencode = "=0.2.4"
