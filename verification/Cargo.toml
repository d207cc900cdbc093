[package]
name = "oyster"
version = "0.1.0"
edition = "2021"
publish = false

[dependencies]
num-bigint = "0.4"
serde = "1.0"

[dev-dependencies]
rand = "0.8"
