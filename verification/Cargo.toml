[package]
name = "zerokv"
version = "0.1.0"
edition = "2021"
publish = false

[dependencies]
core_affinity = "=0.8.3"
proc-macro2 = { version = "=1.0.107", default-features = false }
quote = { version = "=1.0.47", default-features = false }
syn = { version = "=2.0.119", default-features = false, features = ["derive", "parsing", "printing"] }
