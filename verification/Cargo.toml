[package]
name = "vanity_primes"
version = "0.1.0"
edition = "2021"
publish = false

[dependencies]
num-bigint = "0.2"
random-fast-rng = "0.1"
