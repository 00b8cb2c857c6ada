[package]
name = "rottenbrit"
version = "0.1.0"
edition = "2021"
publish = false

[dependencies]
sha1 = "*"
mio = { version = "*", features = ["os-poll", "net"] }
