[package]
name = "fuzzy_matcher"
version = "0.1.0"
edition = "2021"
publish = false

[dependencies]
fst = { version = "0.4", features = ["levenshtein"] }
js-sys = "0.3"
wasm-bindgen = "0.2"
