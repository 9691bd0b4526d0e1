[package]
name = "eyros"
version = "0.1.0"
edition = "2021"
publish = false

[dependencies]
desert = "=1.0.3"
failure = "=0.1.8"
random-access-storage = "=3.0.0"
