[package]
name = "flical"
version = "0.1.0"
edition = "2021"
publish = false

[dependencies]
num-rational = "0.4"
num-complex = "0.4"
num-traits = "0.2"
