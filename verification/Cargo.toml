[package]
name = "gap_sys"
version = "0.2.4"
edition = "2021"
publish = false

[dependencies]
anyhow = "=1.0.104"
bindgen = { version = "=0.68.1", features = ["experimental"] }
cc = "=1.11.0"
