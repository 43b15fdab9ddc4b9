[package]
name = "mvstore"
version = "0.1.0"
edition = "2021"

[dependencies]
concread = "*"
serde = "*"
