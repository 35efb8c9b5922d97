[package]
name = "nix_update_fetch"
version = "0.1.0"
edition = "2021"
publish = false

[dependencies]
clap = "2.33"
dialoguer = "0.3.0"
difference = "=2.0.0"
failure = "=0.1.8"
itertools = "0.8"
regex = "=1.13.1"
rnix = "0.5.2"
rowan = "0.3"
serde = { version = "=1.0.229", features = ["derive"] }
serde_json = "=1.0.154"
term = "0.5"
