[package]
name = "applesource"
version = "0.1.0"
edition = "2021"
publish = false

[dependencies]
anyhow = "*"
async-compression = { version = "*", features = ["gzip", "tokio"] }
clap = "*"
futures = "*"
git2 = { version = "*", default-features = false }
regex = "*"
reqwest = { version = "*", default-features = false }
tokio = { version = "*", features = ["rt", "rt-multi-thread", "io-util", "macros"] }
tokio-tar = "*"
