[package]
name = "sodg"
version = "0.1.0"
edition = "2021"
publish = false

[dependencies]
serde = { version = "*", features = ["derive"] }
log = "*"
simple_logger = "*"
ctor = "*"
