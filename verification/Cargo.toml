[package]
name = "constellation"
version = "0.1.0"
edition = "2021"
publish = false

[dependencies]
crossbeam = "0.8"
hibitset = { version = "0.6", default-features = false }
fnv = "1"
rayon = "1"
arrayvec = "0.7"
