[package]
name = "serial_probe"
version = "0.1.0"
edition = "2021"
publish = false

[dependencies]
bytes = "*"
rand = "*"
futures = "*"
tokio = { version = "*", features = ["rt", "macros", "io-util", "time"] }
tokio-serial = "*"
