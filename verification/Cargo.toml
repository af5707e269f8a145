[package]
name = "tsp_engine"
version = "0.1.0"
edition = "2021"
publish = false

[dependencies]
rand = "0.8"
rand_pcg = "0.3"
rayon = "1"
serde-pickle = "1"
