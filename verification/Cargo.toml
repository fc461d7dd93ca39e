[package]
name = "ripstruct"
version = "0.1.0"
edition = "2021"
publish = false

[dependencies]
rayon = "1"

[dev-dependencies]
crossbeam = "0.8"
num_cpus = "1"
