[package]
name = "wasmthello"
version = "0.1.0"
edition = "2021"
publish = false

[dependencies]
wasmtime = "=48.0.5"
uuid = { version = "=1.18.1", features = ["v4"] }
