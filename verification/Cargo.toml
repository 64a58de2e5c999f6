[package]
name = "tf_buffer"
version = "0.1.0"
edition = "2021"
publish = false

[dependencies]
anyhow = "*"
nalgebra = "*"
serde = "*"
serde_derive = "*"
toml = "*"
