[package]
name = "unit_interval"
version = "0.1.0"
edition = "2021"
publish = false

[dependencies]
arbitrary = { version = "*", features = ["derive"] }
rand = "*"
rand_distr = "*"
