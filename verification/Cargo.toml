[package]
name = "nertsio"
version = "0.1.0"
edition = "2021"
publish = false

[dependencies]
rand = "0.8"
lexical = { version = "7", features = ["radix"] }
serde = { version = "1", features = ["derive"] }
serde_json = "1"
bincode = "1"
