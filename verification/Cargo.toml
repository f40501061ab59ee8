[package]
name = "taffy"
version = "0.1.0"
edition = "2021"
publish = false

[dependencies]
slotmap = { version = "1.0", default-features = false, features = ["std"] }
num-traits = "0.2"
