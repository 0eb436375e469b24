[package]
name = "torrentcore"
version = "0.1.0"
edition = "2021"
publish = false

[dependencies]
sha1 = "*"
hex = "*"
serde_urlencoded = "*"
serde_json = "*"
tokio = { version = "*", features = ["net", "io-util", "rt-multi-thread", "macros"] }
reqwest = { version = "*", default-features = false }
clap = { version = "*", features = ["derive"] }
