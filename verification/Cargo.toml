[package]
name = "impersonate"
version = "0.1.0"
edition = "2021"
publish = false

[dependencies]
itertools = "0.10"
rand = "0.7"
regex = "1"
structopt = "0.3"
