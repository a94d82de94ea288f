[package]
name = "proc_forest"
version = "0.1.0"
edition = "2021"
publish = false

[dependencies]
regex = "1"
