[package]
name = "citybound"
version = "0.1.3"
edition = "2021"
publish = false

[dependencies]
roaring = "*"
fnv = "*"
rand = "*"
ordered-float = "*"
itertools = "*"
