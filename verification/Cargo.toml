[package]
name = "chainsweep"
version = "0.1.0"
edition = "2021"
publish = false

[dependencies]
fastrand = "=2.0.2"
stylus-sdk = "=0.5.2"
alloy-primitives = "=0.7.6"
alloy-sol-types = "=0.7.6"
mini-alloc = "=0.4.2"
