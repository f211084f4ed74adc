[package]
name = "lgcell2_core"
version = "0.1.0"
edition = "2021"
publish = false

[dependencies]
serde = { version = "1", features = ["derive"] }
serde_json = "1"
clap = { version = "4", features = ["derive"] }
crossterm = "*"
thiserror = "*"
wasm-bindgen = "0.2"
tsify-next = "*"
