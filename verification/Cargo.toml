[package]
name = "ocm_solver"
version = "0.1.0"
edition = "2021"
publish = false

[dependencies]
ahash = "=0.8.12"
clap = { version = "=4.6.7", features = ["derive"] }
plotters = { version = "=0.3.7", default-features = false }
plotters-bitmap = "=0.3.7"
winnow = "0.6"
