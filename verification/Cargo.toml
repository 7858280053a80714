[package]
name = "chatproto"
version = "0.1.0"
edition = "2021"
publish = false

[dependencies]
uuid = { version = "1", features = ["v4"] }
async-std = "1"
async-trait = "0.1"
futures = "0.3"
