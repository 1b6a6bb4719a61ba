[package]
name = "fifteen_puzzle"
version = "0.1.0"
edition = "2021"
publish = false

[dependencies]
pheap = "*"
rand = "0.8"
nalgebra = "*"
