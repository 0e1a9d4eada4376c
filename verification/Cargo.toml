[package]
name = "residuality"
version = "0.1.0"
edition = "2021"
publish = false

[dependencies]
chrono = "0.4"
clap = { version = "4", features = ["derive"] }
csv = "1"
inquire = "*"
serde = { version = "1", features = ["derive"] }
