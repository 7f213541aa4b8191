[package]
name = "aima"
version = "0.1.0"
edition = "2021"
publish = false

[dependencies]
pathfinding = "*"
petgraph = "*"
rand = "0.7"
ordered-float = "*"
ndarray = "*"
image = { version = "0.23", default-features = false, features = ["png"] }
indextree = "*"
itertools = "*"
bitflags = "1"
indexmap = "*"
random-fast-rng = "*"
textplots = "0.5"
num-traits = "*"
