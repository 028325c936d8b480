[package]
name = "ncollide"
version = "0.1.0"
edition = "2021"
publish = false

[dependencies]
slotmap = "1.0"
nalgebra = { version = "*", default-features = false, features = ["std"] }
