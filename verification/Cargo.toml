[package]
name = "benchcmp"
version = "0.1.0"
edition = "2021"
publish = false

[dependencies]
regex = "*"
prettytable-rs = "*"
docopt = "*"
serde = { version = "*", features = ["derive"] }
