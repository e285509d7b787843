[package]
name = "hyperindex"
version = "0.1.0"
edition = "2021"
publish = false

[dependencies]
bit-vec = "0.6"
rand = "0.8"
rand_distr = "0.4"
rayon = "1"
