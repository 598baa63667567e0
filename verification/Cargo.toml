[package]
name = "arma"
version = "0.1.0"
edition = "2021"
publish = false

[dependencies]
anyhow = "1"
flate2 = "1"
goblin = "0.10"
ruzstd = "0.8"
thiserror = "2"
