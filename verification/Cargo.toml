[package]
name = "tidefi_stake"
version = "0.1.0"
edition = "2021"
publish = false

[dependencies]
sp-arithmetic = "=29.0.0"
sp-weights = "*"
bounded-collections = "*"
