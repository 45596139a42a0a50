[package]
name = "spmc"
version = "0.1.0"
edition = "2021"
publish = false

[dependencies]
crossterm = "0.25"
csv = "1"
serde = { version = "1", features = ["derive"] }
tui = "0.19"
