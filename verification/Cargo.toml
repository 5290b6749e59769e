[package]
name = "cc2p"
version = "0.1.0"
edition = "2021"
publish = false

[dependencies]
clap = { version = "4", features = ["derive"] }
csv = "1"
glob = "0.3"
indicatif = "0.17"
parquet = { version = "*", default-features = false, features = ["snap"] }
tokio = { version = "1", features = ["rt-multi-thread"] }
