[package]
name = "netherite-algebra"
version = "0.1.0"
edition = "2021"
publish = false

[dependencies]
ark-ec = "0.3"
ark-ff = "0.3"
ark-std = "0.3"
blake2 = "0.9"
num-bigint = "0.4"
subtle = "2"
