[package]
name = "candor"
version = "0.1.0"
edition = "2021"
publish = false

[dependencies]
can-dbc = "=10.0.0"
clap = { version = "=4.6.7", features = ["derive"] }
