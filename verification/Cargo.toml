[package]
name = "poisson_recon"
version = "0.1.0"
edition = "2021"
publish = false

[dependencies]
clap = { version = "4", features = ["derive"] }
rayon = "1"
mcubes = "*"
lin_alg = "*"
