[package]
name = "game_of_life"
version = "0.1.0"
edition = "2021"
publish = false

[dependencies]
getrandom = "0.2"
js-sys = "0.3"
wasm-bindgen = "0.2"
