[package]
name = "ll1_parser"
version = "0.1.0"
edition = "2021"
publish = false

[dependencies]
itertools = "=0.15.0"
m6stack = "=0.1.0"
