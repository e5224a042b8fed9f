[package]
name = "lattice_solver"
version = "0.1.0"
edition = "2021"
publish = false

[dependencies]
fixedbitset = "=0.5.7"
rayon = "=1.12.0"
json = "=0.12.4"
kiddo = "=4.2.1"
