[package]
name = "user_service"
version = "0.1.0"
edition = "2021"
publish = false

[dependencies]
slab = "0.4"
hyper = "0.12"
futures = "0.1"

[dev-dependencies]
regex = "1"
