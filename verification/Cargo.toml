[package]
name = "rope"
version = "0.1.0"
edition = "2021"
publish = false

[dependencies]
bytecount = "*"
memchr = "2"
serde = { version = "1", features = ["derive"] }
unicode-segmentation = "1"
