[package]
name = "mc_types"
version = "0.1.0"
edition = "2021"
publish = false

[dependencies]
byteorder = "1"
