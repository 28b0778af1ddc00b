[package]
name = "scnr2"
version = "0.1.0"
edition = "2021"
publish = false

[dependencies]
regex-syntax = "0.8"
proc-macro2 = "1"
quote = "1"
syn = { version = "2", features = ["full"] }
