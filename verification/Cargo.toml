[package]
name = "mlua_mathlib"
version = "0.1.0"
edition = "2021"
publish = false

[dependencies]
rand = "0.9"
rand_distr = "0.5"
statrs = "0.18"
mlua = { version = "0.11", features = ["lua54", "vendored"] }
