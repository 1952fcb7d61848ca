[package]
name = "memapi"
version = "0.1.0"
edition = "2021"
publish = false

[dependencies]
im = "=15.1.0"
inferno = { version = "=0.12.8", default-features = false }
itertools = "=0.15.0"
libc = "=0.2.191"
