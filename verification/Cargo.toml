[package]
name = "tpmt"
version = "0.1.0"
edition = "2021"
publish = false

[dependencies]
hex = "0.4"
serde_json = "1"
sha1 = "0.6"
sha2 = "0.10"
walkdir = "2"
