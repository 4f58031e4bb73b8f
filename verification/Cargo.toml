[package]
name = "istringscheck"
version = "0.1.0"
edition = "2021"
publish = false

[dependencies]
docopt = "*"
serde = { version = "*", features = ["derive"] }
