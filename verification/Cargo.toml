[package]
name = "radix_2_dit"
version = "0.1.0"
edition = "2021"
publish = false

[dependencies]
p3-field = "=0.6.3"
p3-goldilocks = "=0.6.3"
p3-matrix = "=0.6.3"
p3-util = "=0.6.3"
spin = "=0.12.3"
tracing = "=0.1.44"
