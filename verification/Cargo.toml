[package]
name = "label_remap"
version = "0.1.0"
edition = "2021"
publish = false

[dependencies]
clap = "4"

[dev-dependencies]
tempfile = "3"
