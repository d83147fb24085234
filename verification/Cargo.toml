[package]
name = "depict"
version = "0.1.0"
edition = "2021"
publish = false

[dependencies]
rustc-demangle = "0.1"
json-builder-macro = "*"
