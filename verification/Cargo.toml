[package]
name = "mz_rs"
version = "0.1.0"
edition = "2021"
publish = false

[dependencies]
burn = { version = "0.18", default-features = false, features = ["std", "ndarray", "autodiff"] }
chess = "3.2"
fastrand = "2"
pollster = "*"
rand = "0.9"
rand_distr = "0.5"
rayon = "1"
rmp-serde = "1"
serde = { version = "1", features = ["derive"] }
serde_yaml = "0.9"
strum = { version = "*", features = ["derive"] }
tch = { version = "0.22", features = ["doc-only"] }
wasm-bindgen = "0.2"
