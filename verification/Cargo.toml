[package]
name = "corun"
version = "0.1.0"
edition = "2021"
publish = false

[dependencies]
bit-iter = "1"
unicycle = "0.9"
futures = "0.3"
lazy_static = "1"
libc = "0.2"
mio = "0.6"
nix = { version = "0.26", features = ["signal"] }
