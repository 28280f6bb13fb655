[package]
name = "codecrafters-dns-server"
version = "0.1.0"
edition = "2021"

[dependencies]
bytes = "1"
clap = { version = "4", features = ["derive"] }
rand = "0.8"
