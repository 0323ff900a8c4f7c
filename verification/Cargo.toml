[package]
name = "cidr_calc"
version = "0.1.0"
edition = "2021"
publish = false

[dependencies]
im = "*"
anyhow = "*"
clap = { version = "*", features = ["derive"] }
rustyline = "*"
wasm-bindgen = "*"
