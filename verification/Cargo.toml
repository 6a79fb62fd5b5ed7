[package]
name = "zkeval"
version = "0.1.0"
edition = "2021"
publish = false

[dependencies]
sha2 = "*"
clap = { version = "*", features = ["derive"] }
csv = "*"
serde = { version = "*", features = ["derive"] }
