[package]
name = "options_pricing_engine"
version = "0.1.0"
edition = "2021"
publish = false

[dependencies]
libm = "0.2"
num-complex = "0.4"
num-traits = "0.2"
rand = { version = "0.8", features = ["small_rng"] }
rayon = "1"
