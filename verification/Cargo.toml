[package]
name = "the_finale"
version = "0.1.0"
edition = "2021"
publish = false

[dependencies]
hashbrown = "*"
itertools = "*"
num-integer = "*"
petgraph = "*"
tinyvec = "*"
