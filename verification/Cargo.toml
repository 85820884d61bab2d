[package]
name = "mongoose"
version = "0.1.0"
edition = "2021"
publish = false

[dependencies]
array2d = "0.3"
bimap = "0.6"
itertools = "0.12"
petgraph = "0.6"
rand = "0.8"
