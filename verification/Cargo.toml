[package]
name = "seg_arc"
version = "0.1.0"
edition = "2021"
publish = false

[dependencies]
anyhow = "1"
chrono = "0.4"
flate2 = "1"
globset = "0.4"
log = "0.4"
log4rs = "1"
serde = { version = "1", features = ["derive"] }
tar = "0.4"
toml = "*"
xxhash-rust = { version = "0.8", features = ["xxh3"] }
