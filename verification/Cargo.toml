[package]
name = "minigit"
version = "0.1.0"
edition = "2021"
publish = false

[dependencies]
sha1 = "=0.10.7"
flate2 = "=1.1.10"
time = { version = "=0.3.55", features = ["local-offset"] }
