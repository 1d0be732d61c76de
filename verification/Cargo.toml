[package]
name = "worldcache"
version = "0.1.0"
edition = "2021"
publish = false

[dependencies]
bidir-map = "*"
bincode = "1"
byteorder = "1"
clap = "4"
rand = "0.8"
serde = { version = "1", features = ["derive"] }
