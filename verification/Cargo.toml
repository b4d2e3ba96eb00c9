[package]
name = "dat_verify"
version = "0.1.0"
edition = "2021"
publish = false

[dependencies]
sp-core = "*"
sp-runtime = "*"
parity-scale-codec = { version = "*", features = ["derive"] }
