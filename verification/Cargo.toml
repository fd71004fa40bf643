[package]
name = "oxidize"
version = "0.1.0"
edition = "2021"
publish = false

[dependencies]
clap = "2"
daggy = "0.8"
nom = "7"
