[package]
name = "sarc_rs"
version = "0.1.0"
edition = "2021"
publish = false

[dependencies]
binread = "2"
binwrite = "0.2"
cached = "*"
indexmap = "1"
num = "0.4"
serde = { version = "1", features = ["derive"] }
serde_json = "1"
thiserror = "1"
