[package]
name = "whelk"
version = "0.1.0"
edition = "2021"
publish = false

[dependencies]
horned-owl = "1"
im = "15"
itertools = "0.12"
