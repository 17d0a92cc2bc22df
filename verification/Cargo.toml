[package]
name = "rust_umap"
version = "0.1.0"
edition = "2021"
publish = false

[dependencies]
rand = { version = "0.8", features = ["small_rng"] }
rand_distr = "0.4"
nalgebra = "0.33"
rayon = "1"
