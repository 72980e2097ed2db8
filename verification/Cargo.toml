[package]
name = "ksym"
version = "0.1.0"
edition = "2021"

[dependencies]
lazyinit = "*"
rustc-demangle = "*"
