[package]
name = "deltaml"
version = "0.1.0"
edition = "2021"
publish = false

[dependencies]
ndarray = "0.16"
rand = "0.8"
libm = "0.2"
num-traits = "0.2"

[dev-dependencies]
linfa-datasets = { version = "0.7", features = ["iris"] }
