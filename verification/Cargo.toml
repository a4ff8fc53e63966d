[package]
name = "kmer_subtract"
version = "0.1.0"
edition = "2021"
publish = false

[dependencies]
bloom = "*"
clap = "*"
debruijn = "*"
flate2 = "*"
