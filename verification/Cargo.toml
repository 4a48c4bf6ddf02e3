[package]
name = "genovo"
version = "0.2.0"
edition = "2021"
publish = false

[dependencies]
rand = "*"
anyhow = "*"
clap = "*"
flate2 = "*"
twobit = "*"
pattern_partition_prediction = "*"
