[package]
name = "midi2swstruct"
version = "0.1.0"
edition = "2021"
publish = false

[dependencies]
midly = "*"
clap = { version = "*", features = ["derive"] }
