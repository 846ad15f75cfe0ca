[package]
name = "qkd-network-sim"
version = "0.1.0"
edition = "2021"
publish = false

[dependencies]
rand = "0.9"
rand_chacha = "0.9"
rayon = "1"
indicatif = "0.17"
colored = "2"
clap = { version = "4", features = ["derive"] }
