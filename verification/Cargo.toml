[package]
name = "wide_hand_eval"
version = "0.1.0"
edition = "2021"
publish = false

[dependencies]
clap = { version = "=4.6.7", features = ["derive"] }
rand = "=0.9.5"
rayon = "=1.12.0"
simd_rand = { version = "=0.1.0", features = ["portable"] }
