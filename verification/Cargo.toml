[package]
name = "axns"
version = "0.1.0"
edition = "2021"
publish = false

[dependencies]
crate_interface = "0.1"
linkme = "0.3"
