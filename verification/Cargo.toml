[package]
name = "bigfiles"
version = "0.2.0"
edition = "2021"
publish = false

[dependencies]
clap = { version = "*", features = ["env"] }
ignore = "*"
rayon = "*"
shellexpand = "*"
