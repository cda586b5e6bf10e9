[package]
name = "sss"
version = "0.1.0"
edition = "2021"
publish = false

[dependencies]
bincode = "2"
parry3d-f64 = "*"
stl_io = "*"
