[package]
name = "hmm_mapper"
version = "0.1.0"
edition = "2021"
publish = false

[dependencies]
clap = { version = "*", features = ["derive"] }
flate2 = "*"
needletail = { version = "*", default-features = false }
rayon = "*"
