[package]
name = "diet-mac-and-cheese"
version = "0.1.0"
edition = "2021"
publish = false

[dependencies]
clap = { version = "=4.6.7", features = ["derive"] }
eyre = "=0.6.14"
git-version = "=0.3.9"
rand = "=0.8.8"
serde = { version = "=1.0.229", features = ["derive"] }
subtle = "=2.6.1"
