[package]
name = "stash"
version = "0.1.0"
edition = "2021"
publish = false

[dependencies]
camino = "*"
clap = { version = "*", features = ["derive"] }
directories = "*"
eyre = "*"
fs-err = "*"
time = { version = "*", features = ["formatting"] }
