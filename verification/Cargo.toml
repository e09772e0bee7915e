[package]
name = "halo2_base"
version = "0.1.0"
edition = "2021"
publish = false

[dependencies]
halo2-axiom = "=0.5.3"
num-bigint = { version = "=0.4.8", features = ["rand"] }
num-traits = "=0.2.19"
rand_chacha = "=0.3.1"

[dev-dependencies]
rand = "=0.8.8"
