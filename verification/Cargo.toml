[package]
name = "threshold_mta"
version = "0.1.0"
edition = "2021"
publish = false

[dependencies]
pasta_curves = "*"
num-integer = "*"
rand = "0.8"
