[package]
name = "crusty_json"
version = "0.1.0"
edition = "2021"
publish = false

[dependencies]
clap = { version = "*", features = ["derive"] }
nonblock = "*"
reqwest = { version = "*", default-features = false, features = ["blocking"] }
