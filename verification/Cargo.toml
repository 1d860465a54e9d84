[package]
name = "mycochip"
version = "0.1.0"
edition = "2021"
publish = false

[dependencies]
clap = "4"
ctrlc = "3"
prost = "0.12"
serde = { version = "1", features = ["derive"] }
serde_yaml = "0.9"
simavr-ffi = "*"
zmq = "0.10"
