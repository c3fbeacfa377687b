[package]
name = "sally"
version = "0.1.0"
edition = "2021"
publish = false

[dependencies]
rand = "=0.8.8"
serde = { version = "=1.0.229", features = ["derive"] }
serde_json = "=1.0.154"
nalgebra = "0.33"
num-traits = "0.2"
rand_distr = "0.4"
rayon = "1"
