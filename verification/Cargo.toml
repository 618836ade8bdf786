[package]
name = "orn_cli"
version = "0.1.0"
edition = "2021"
publish = false

[dependencies]
math-parse = "*"
curl = "*"
glob = "*"
serde = { version = "*", features = ["derive"] }
serde_json = "*"
toml = "*"
thiserror = "*"
clap = { version = "*", features = ["derive"] }
tokio = { version = "*", features = ["rt-multi-thread", "macros"] }
