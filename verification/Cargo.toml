[package]
name = "josh"
version = "0.1.0"
edition = "2021"
publish = false

[dependencies]
anyhow = "1"
clap = "2"
git2 = { version = "*", default-features = false }

[dev-dependencies]
regex = "1"
