[package]
name = "hoshino"
version = "0.1.0"
edition = "2021"
publish = false

[dependencies]
aho-corasick = "=1.1.5"
napi = { version = "=2.16.17", features = ["napi4"] }
napi-derive = "=2.16.13"
once_cell = "=1.21.4"
mimalloc-rust = "=0.2.1"
unicode-width = "=0.1.11"

[dev-dependencies]
azusa = "=1.0.1"
