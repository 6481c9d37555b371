[package]
name = "seigr_hive"
version = "0.1.0"
edition = "2021"
publish = false

[dependencies]
bcrypt = "*"
blake2 = "*"
hex = "*"
ring = "*"
