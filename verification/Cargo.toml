[package]
name = "reactors"
version = "0.1.0"
edition = "2021"
publish = false

[dependencies]
futures-task = "0.3"
