[package]
name = "dfa_regex"
version = "0.1.0"
edition = "2021"
publish = false

[dependencies]
dot = "*"
graphviz-rust = "*"
