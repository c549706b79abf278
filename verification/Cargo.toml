[package]
name = "tobacco-kernel"
version = "0.1.0"
edition = "2021"
publish = false

[dependencies]
volatile = "0.6"
x86_64 = { version = "0.15", default-features = false, features = ["instructions"] }
