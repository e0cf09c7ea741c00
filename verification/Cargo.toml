[package]
name = "cargo_minify"
version = "0.1.0"
edition = "2021"
publish = false

[dependencies]
cargo_metadata = "0.18"
glob-match = "0.2"
multimap = "0.10"
proc-macro2 = { version = "1", features = ["span-locations"] }
syn = { version = "2", features = ["full"] }
