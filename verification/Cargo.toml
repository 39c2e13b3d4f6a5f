[package]
name = "libscoop"
version = "0.1.0"
edition = "2021"
publish = false

[dependencies]
dirs = "=7.0.0"
lzma-rust2 = "*"
once_cell = "1"
serde_json = "=1.0.154"
sevenz-rust2 = "*"
tar = "0.4"
zip = { version = "0.6", default-features = false, features = ["deflate"] }
