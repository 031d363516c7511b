[package]
name = "ocdg"
version = "0.1.0"
edition = "2021"
publish = false

[dependencies]
array_tool = "1"
petgraph = "0.6"
petgraph-graphml = "3"
rayon = "1"
