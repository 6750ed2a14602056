[package]
name = "kzg_core"
version = "0.1.0"
edition = "2021"
publish = false

[dependencies]
blstrs = "=0.6.2"
ff = "=0.12.1"
group = "=0.12.1"
pairing = "=0.22.0"
rayon = "=1.12.0"
