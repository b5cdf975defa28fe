[package]
name = "spatial_decomposition"
version = "0.1.0"
edition = "2021"
publish = false

[dependencies]
approx = "*"
thiserror = "*"
