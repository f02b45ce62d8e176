[package]
name = "citest"
version = "0.1.0"
edition = "2021"
publish = false

[dependencies]
statrs = "*"
thiserror = "*"
anyhow = "*"
ndarray = "*"
ordered-float = "*"
nalgebra = "*"
