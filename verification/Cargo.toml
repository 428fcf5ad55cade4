[package]
name = "infix_notation"
version = "0.1.0"
edition = "2021"
publish = false

[dependencies]
regex = "=1.13.1"
