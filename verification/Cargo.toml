[package]
name = "sbann"
version = "0.1.0"
edition = "2021"
publish = false

[dependencies]
bytemuck = "1"
memmap2 = "0.9"
rayon = "1"
nalgebra = "0.33"
matrixmultiply = "0.3"
