[package]
name = "ark_msm"
version = "0.1.0"
edition = "2021"
publish = false

[dependencies]
ark-bls12-381 = "0.4"
ark-ec = "0.4"
ark-ff = "0.4"
ark-std = "0.4"
rayon = "*"
tracing = "*"
tracing-flame = "*"
tracing-subscriber = "*"
tempfile = "*"
inferno = "*"
