[package]
name = "cargo_light"
version = "0.1.0"
edition = "2021"
publish = false

[dependencies]
clap = "2"
colored = "1"
proc-macro2 = { version = "0.4", features = ["span-locations"] }
syn = { version = "0.15", features = ["full", "visit"] }
walkdir = "2"
