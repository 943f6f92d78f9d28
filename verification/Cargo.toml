[package]
name = "membership"
version = "0.1.0"
edition = "2021"
publish = false

[dependencies]
chrono = "*"
clap = { version = "*", features = ["derive"] }
hostname = "*"
nix = { version = "*", features = ["poll"] }
timer = "*"

[dev-dependencies]
bincode = "1"
