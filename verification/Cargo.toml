[package]
name = "space_time"
version = "0.2.0"
edition = "2021"
publish = false

[dependencies]
num-integer = "0.1"
num-traits = "0.2"
time = { version = "0.2", default-features = false }

[dev-dependencies]
quickcheck = { version = "0.9", default-features = false }
