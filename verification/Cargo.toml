[package]
name = "quote_streaming"
version = "0.1.0"
edition = "2021"
publish = false

[dependencies]
crossbeam-channel = "*"
rand = "*"
chrono = "*"
ctrlc = "*"
clap = { version = "*", features = ["derive"] }
