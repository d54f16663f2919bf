[package]
name = "petri"
version = "0.1.0"
edition = "2021"
publish = false

[dependencies]
crossterm = "=0.28.1"
fe2o3-crust = "=0.1.71"
