[package]
name = "tardex"
version = "0.1.0"
edition = "2021"
publish = false

[dependencies]
tar = "0.4"
