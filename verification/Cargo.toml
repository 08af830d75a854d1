[package]
name = "renjulibviewer"
version = "0.1.0"
edition = "2021"
publish = false

[dependencies]
rustc-hash = "2"
encoding_rs = "0.8"
lz4_flex = "0.11"
rayon = "1"
byteorder = "1"
web-time = "1"
serde = { version = "1", features = ["derive"] }
serde_json = "1"
