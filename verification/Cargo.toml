[package]
name = "arith_bdd"
version = "0.1.0"
edition = "2021"
publish = false

[dependencies]
biodivine-lib-bdd = "=0.6.3"
petgraph = "=0.8.3"
itertools = "=0.15.0"
proc-macro2 = "=1.0.107"
quote = "=1.0.47"
syn = "=3.0.9"

[dev-dependencies]
rand = "=0.9.5"
