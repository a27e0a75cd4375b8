[package]
name = "rokoko_ring"
version = "0.1.0"
edition = "2021"
publish = false

[dependencies]
num = "=0.4.3"
rand = "=0.9.5"
blake3 = "=1.8.7"
