[package]
name = "xterm_query"
version = "0.1.0"
edition = "2021"
publish = false

[dependencies]
nix = { version = "*", features = ["poll", "event"] }
thiserror = "*"
