[package]
name = "lsm_core"
version = "0.1.0"
edition = "2021"
publish = false

[dependencies]
leb128 = "0.2"
rand = "0.8"
