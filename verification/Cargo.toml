[package]
name = "liasse_runtime"
version = "0.1.0"
edition = "2021"
publish = false

[dependencies]
bigdecimal = "0.4"
serde = { version = "1", features = ["derive"] }
serde_json = "1"
thiserror = "2"
