[package]
name = "struson"
version = "0.1.0"
edition = "2021"
publish = false

[dependencies]
embedded-io-async = "0.6"
strum = { version = "0.26", features = ["derive"] }
thiserror = "2"
