[package]
name = "proctor"
version = "0.1.0"
edition = "2021"
publish = false

[dependencies]
clap = { version = "=3.2.25", features = ["derive"] }
simple-error = "=0.2.3"

[dev-dependencies]
itertools = "0.10"
