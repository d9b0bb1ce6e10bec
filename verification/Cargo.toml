[package]
name = "rexplore"
version = "0.1.0"
edition = "2021"
publish = false

[dependencies]
regex = "1"
rustdoc-types = "*"
serde = { version = "1", features = ["derive"] }
serde_json = "1"
anyhow = "1"
clap = { version = "4", features = ["derive"] }
thiserror = "*"
tokio = { version = "1", features = ["io-std", "io-util", "macros", "rt-multi-thread"] }
public-api = "*"
