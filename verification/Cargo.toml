[package]
name = "zvec-bindings"
version = "0.1.0"
edition = "2021"
publish = false

[dependencies]
thiserror = "*"
zvec-sys = "*"
