[package]
name = "particle_filter"
version = "0.1.0"
edition = "2021"
publish = false

[dependencies]
color-eyre = "0.6"
itertools = "0.10"
linfa = "0.7"
linfa-clustering = "0.7"
ndarray = "0.15"
ndarray-linalg = "0.14"
ndarray-rand = "0.14"
ndarray-stats = "0.5"
