[package]
name = "ferrumdb"
version = "0.1.0"
edition = "2021"
publish = false

[dependencies]
prost = "0.14"
