[package]
name = "hashsort"
version = "0.1.0"
edition = "2021"
publish = false

[dependencies]
md5 = "0.7"
rayon = "1"
clap = "2"
crossbeam-channel = "0.5"
crossbeam-utils = "0.8"
num_cpus = "1"
