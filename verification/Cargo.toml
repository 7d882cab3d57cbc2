[package]
name = "wjs"
version = "0.1.0"
edition = "2021"
publish = false

[dependencies]
swc_ecmascript = { version = "*", features = ["parser"] }
swc_common = "*"
