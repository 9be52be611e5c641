[package]
name = "qubo_bb"
version = "0.1.0"
edition = "2021"
publish = false

[dependencies]
smolprng = "*"
clarabel = "*"
sprs = "*"
ndarray = "*"
