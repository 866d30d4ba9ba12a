[package]
name = "ebnf"
version = "0.1.0"
edition = "2021"
publish = false

[dependencies]
console = "*"
lazy_static = "*"
structopt = "*"
