[package]
name = "petrel_mime"
version = "0.1.0"
edition = "2021"
publish = false

[dependencies]
base64 = "0.22"
encoding_rs = "0.8"
tokio = { version = "1", features = ["rt", "sync", "time", "macros"] }
