[package]
name = "pqbit"
version = "0.1.0"
edition = "2021"
publish = false

[dependencies]
bitcoin = "0.32"
bitcoinpqc = "*"
clap = { version = "4", features = ["derive"] }
hex = "0.4"
rand = "0.8"
sha2 = "0.10"
