[package]
name = "tgit"
version = "0.1.0"
edition = "2021"
publish = false

[dependencies]
sha1 = "0.10"
hex = "0.4"
flate2 = "1"
anyhow = "1"
chrono = "0.4"
structopt = "0.3"
tokio = { version = "1", features = ["full"] }
reqwest = "0.11"
bytes = "1"
