[package]
name = "sd_core"
version = "0.1.0"
edition = "2021"
publish = false

[dependencies]
globset = "*"
http-range = "*"
uuid = { version = "*", features = ["v4"] }
