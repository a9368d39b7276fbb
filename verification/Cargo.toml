[package]
name = "snp_sampler"
version = "0.1.0"
edition = "2021"
publish = false

[dependencies]
clap = "=2.34.0"
rand = "=0.8.8"
rayon = "=1.12.0"
