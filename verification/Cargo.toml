[package]
name = "routeviz"
version = "0.1.0"
edition = "2021"
publish = false

[dependencies]
alloy-primitives = { version = "=1.7.3", features = ["serde"] }
num-bigint = "=0.4.8"
serde = { version = "=1.0.229", features = ["derive"] }
serde_json = "=1.0.154"
clap = { version = "=4.6.7", features = ["derive"] }
rand = "=0.9.5"
rand_chacha = "=0.9.0"
rand_distr = "=0.5.1"
ordered-float = "=5.5.1"
wasm-bindgen = "=0.2.130"
serde-wasm-bindgen = "=0.6.5"
