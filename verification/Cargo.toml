[package]
name = "vulcano"
version = "0.1.0"
edition = "2021"
publish = false

[dependencies]
rand = "0.9"
rayon = "1"
rug = { version = "1", default-features = false, features = ["integer", "rand", "std"] }
gmp-mpfr-sys = { version = "1", default-features = false, features = ["use-system-libs"] }
