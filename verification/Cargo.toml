[package]
name = "parva_os"
version = "0.1.0"
edition = "2021"
publish = false

[dependencies]
bit_field = "0.10"
lazy_static = "1.4"
spin = "0.9"
x86_64 = { version = "0.15", default-features = false, features = ["instructions"] }
