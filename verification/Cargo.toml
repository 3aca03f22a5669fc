[package]
name = "hexdiff"
version = "0.1.0"
edition = "2021"
publish = false

[dependencies]
ihex = "*"
itertools = "*"
serde = "*"
serde_derive = "*"
serde_json = "*"
structopt = "*"
