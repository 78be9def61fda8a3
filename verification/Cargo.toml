[package]
name = "loxide"
version = "0.1.0"
edition = "2021"
publish = false

[dependencies]
eyre = "0.6"
lexopt = "0.3"
yansi = "1"
