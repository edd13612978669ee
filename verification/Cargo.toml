[package]
name = "pascal"
version = "0.1.0"
edition = "2021"
publish = false

[dependencies]
bnum = { version = "=0.13.0", features = ["numtraits"] }
num-bigint = "=0.5.1"
num-integer = "=0.1.47"
num-traits = "=0.2.19"
