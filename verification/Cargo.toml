[package]
name = "dewey"
version = "0.1.0"
edition = "2021"
publish = false

[dependencies]
clap = { version = "4", features = ["derive"] }
flate2 = "1"
reqwest = { version = "0.12", features = ["blocking"] }
sha1 = "0.10"
