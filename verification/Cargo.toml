[package]
name = "bus_phantom"
version = "0.1.0"
edition = "2021"
publish = false

[dependencies]
bustools = "0.14.0"
bustools_cli = { version = "0.8.0", default-features = false }
indicatif = "0.17"
rand = "0.8"
