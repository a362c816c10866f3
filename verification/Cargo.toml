[package]
name = "parattice"
version = "0.2.2"
edition = "2021"
publish = false

[dependencies]
libc = "0.2"
