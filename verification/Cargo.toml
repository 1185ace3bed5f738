[package]
name = "vortex_core"
version = "0.1.0"
edition = "2021"
publish = false

[dependencies]
croaring = "*"
bytes = "*"
futures = "*"
