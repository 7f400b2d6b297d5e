[package]
name = "skip_list"
version = "0.1.0"
edition = "2021"
publish = false

[dependencies]
fiole = { version = "=0.1.1", features = ["roaring"] }
fjall = "=3.1.13"
roaring = "=0.11.5"

[dev-dependencies]
tempfile = "=3.27.0"
