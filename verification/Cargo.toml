[package]
name = "scribe"
version = "0.1.0"
edition = "2021"
publish = false

[dependencies]
rust-crypto = "0.2"
serde = { version = "1", features = ["derive"] }
serde_derive = "1"
serde_json = "1"
shrust = "*"
termcolor = "1"
walkdir = "2"
