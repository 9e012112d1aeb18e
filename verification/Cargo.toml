[package]
name = "rxing"
version = "0.1.0"
edition = "2021"
publish = false

[dependencies]
encoding = "0.2"
