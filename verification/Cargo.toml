[package]
name = "r_torrent"
version = "0.1.0"
edition = "2021"
publish = false

[dependencies]
byteorder = "1"
crossterm = "0.27"
rand = "0.8"
reqwest = { version = "0.11", default-features = false }
sha1_smol = "1"
tokio = { version = "1", features = ["rt-multi-thread", "macros", "net", "time", "sync", "io-util"] }
url = "2"
