[package]
name = "linux_tuples_client"
version = "0.1.0"
edition = "2021"
publish = false

[dependencies]
time = "0.1"
