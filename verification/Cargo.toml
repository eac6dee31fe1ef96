[package]
name = "iso8601_codec"
version = "0.1.0"
edition = "2021"
publish = false

[dependencies]
serde = "*"
time = "*"
iso8601-duration = "*"
