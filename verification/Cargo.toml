[package]
name = "blsmr"
version = "0.1.0"
edition = "2021"
publish = false

[dependencies]
dscale = { version = "=0.7.2", features = ["mpi"] }
rustc-hash = "=2.1.3"
itertools = "=0.15.0"
