[package]
name = "bin_diff"
version = "0.1.0"
edition = "2021"
publish = false

[dependencies]
difference = "2.0"
sha2 = "0.10"
