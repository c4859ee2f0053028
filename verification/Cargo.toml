[package]
name = "call_graph"
version = "0.1.0"
edition = "2021"
publish = false

[dependencies]
anyhow = "1"
petgraph = "0.6"
rustpython-ast = "0.3"
rustpython-parser = "0.3"
