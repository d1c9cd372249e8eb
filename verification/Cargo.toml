[package]
name = "tsdb"
version = "0.8.0"
edition = "2021"
publish = false

[dependencies]
fs2 = "0.4"
rand = "0.8"
