[package]
name = "multipart_upload"
version = "0.1.0"
edition = "2021"
publish = false

[dependencies]
aws-config = "*"
aws-sdk-s3 = "*"
tokio = { version = "*", features = ["rt-multi-thread", "macros", "fs", "io-util"] }
