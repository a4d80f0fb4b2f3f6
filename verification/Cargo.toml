[package]
name = "zmodem"
version = "0.1.0"
edition = "2021"
publish = false

[dependencies]
crc = "3"
clap = "4"
nix = { version = "*", features = ["term"] }
