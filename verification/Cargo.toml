[package]
name = "loose_objects"
version = "0.1.0"
edition = "2021"
publish = false

[dependencies]
sha1 = "*"
flate2 = "*"
hex = "*"
anyhow = "*"
chrono = "*"
clap = { version = "*", features = ["derive"] }
git2 = { version = "*", default-features = false }
