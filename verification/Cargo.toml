[package]
name = "cad_solver"
version = "0.1.0"
edition = "2021"
publish = false

[dependencies]
num = "0.4"
num-traits = "0.2"
vec1 = "1"
itertools = "0.14"
rand = "0.9"
color-eyre = "0.6"
