[package]
name = "crdt_redis"
version = "0.1.0"
edition = "2021"
publish = false

[dependencies]
chrono = "0.4"
image = "0.24"
pulldown-cmark = "0.9"
wasm-bindgen = "0.2"
