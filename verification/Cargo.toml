[package]
name = "puzzle_kit"
version = "0.1.0"
edition = "2021"
publish = false

[dependencies]
anyhow = "1"
arrayvec = "0.7"
itertools = "0.12"
num-integer = "0.1"
rand = "0.8"
regex = "1"
rustc-hash = "1.1"
