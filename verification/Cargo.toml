[package]
name = "rioterm"
version = "0.1.0"
edition = "2021"
publish = false

[dependencies]
dirs = "5"
libc = "0.2"
serde = { version = "1", features = ["derive"] }
serde_json = "1"
tracing = "0.1"
