[package]
name = "piet_tools"
version = "0.1.0"
edition = "2021"
publish = false

[dependencies]
num-bigint = "0.4"
num-integer = "0.1"
num-traits = "0.2"
image = { version = "0.24", default-features = false, features = ["png"] }
