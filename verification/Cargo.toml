[package]
name = "gapbs"
version = "0.1.0"
edition = "2021"
publish = false

[dependencies]
rand = "0.7"
bit-vec = "0.6"
generational-arena = "0.2"
rayon = "1"
crossbeam-epoch = "0.8"
crossbeam-utils = "0.7"
gc = { version = "0.4", features = ["derive"] }
bacon_rajan_cc = "0.3"
