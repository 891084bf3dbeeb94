[package]
name = "path_planning"
version = "0.1.0"
edition = "2021"
publish = false

[dependencies]
nalgebra = "*"
optimization_engine = "*"
plotlib = "*"
