[package]
name = "memflow-lime"
version = "0.1.0"
edition = "2021"
publish = false

[dependencies]
memflow = "=0.2.4"

[dev-dependencies]
binread = "=2.2.0"
