[package]
name = "m2_rslox"
version = "0.1.0"
edition = "2021"

[dependencies]
rustc_apfloat = "*"
