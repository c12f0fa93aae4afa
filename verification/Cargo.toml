[package]
name = "nbt_tree"
version = "0.1.0"
edition = "2021"
publish = false

[dependencies]
flate2 = "1"

[dev-dependencies]
cesu8 = "1"
