[package]
name = "dt_lib"
version = "0.1.0"
edition = "2021"
publish = false

[dependencies]
ini_core = "=0.1.0"
indexmap = "=2.14.2"
serde = { version = "=1.0.229", features = ["derive"] }
serde_json = "=1.0.154"
