[package]
name = "rendezvous"
version = "0.1.0"
edition = "2021"
publish = false

[dependencies]
foldhash = "0.1"
itertools = "0.14"
linked-hash-map = "0.5"
rand = "0.9"
rand_distr = "0.5"
slotmap = "1"
wasm-bindgen = "0.2"
