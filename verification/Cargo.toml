[package]
name = "fire_sim_core"
version = "0.1.0"
edition = "2021"
publish = false

[dependencies]
rustc-hash = "2"
nalgebra = "0.33"
