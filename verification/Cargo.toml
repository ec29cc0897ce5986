[package]
name = "bulk_gcd"
version = "0.1.0"
edition = "2021"
publish = false

[dependencies]
num-bigint = "=0.5.1"
num-integer = "=0.1.47"
clap = "=4.6.7"
