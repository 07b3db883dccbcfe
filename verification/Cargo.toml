[package]
name = "synth_host"
version = "0.1.0"
edition = "2021"
publish = false

[dependencies]
midly = "0.5"
midir = "*"
rodio = { version = "0.17", default-features = false }
