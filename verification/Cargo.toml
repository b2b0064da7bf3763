[package]
name = "rwwf"
version = "0.1.0"
edition = "2021"
publish = false

[dependencies]
petgraph = "0.6"
permutohedron = "0.2"
docopt = "1"
