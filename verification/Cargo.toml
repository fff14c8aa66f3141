[package]
name = "qoi"
version = "0.1.0"
edition = "2021"
publish = false

[dependencies]
bytemuck = "1"
