[package]
name = "stl_mesh"
version = "0.1.0"
edition = "2021"
publish = false

[dependencies]
nom = "3.2.1"
nalgebra = "0.30"
kiss3d = "0.35"
notify = "4"
clap = "2"
error-chain = "0.12"
