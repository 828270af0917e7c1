[package]
name = "s3_sync"
version = "0.1.0"
edition = "2021"
publish = false

[dependencies]
md5 = "0.7"
mime_guess = "2"
anyhow = "1"
dotenvy = "0.15"
clap = { version = "4", features = ["derive"] }
tokio = { version = "1", features = ["rt-multi-thread", "macros", "fs"] }
aws-config = "1"
aws-credential-types = "1"
aws-sdk-s3 = "1"
