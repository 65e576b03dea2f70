[package]
name = "polycolorpuzzles"
version = "0.1.0"
edition = "2021"
publish = false

[dependencies]
colored = "2"
heuristic-graph-coloring = "0.1.0"
