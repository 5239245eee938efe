[package]
name = "bytary"
version = "0.1.0"
edition = "2021"
publish = false

[dependencies]
clap = { version = "4", features = ["derive"] }
hex = "0.4"
pathfinding = "4"
regex = "1"
thiserror = "1"
