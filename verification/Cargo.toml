[package]
name = "poker_equity"
version = "0.1.0"
edition = "2021"
publish = false

[dependencies]
itertools = "0.13"
rand = "0.8"
