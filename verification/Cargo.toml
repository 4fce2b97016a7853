[package]
name = "truncate_core"
version = "0.1.0"
edition = "2021"
publish = false

[dependencies]
oorandom = "11.1"
instant = "0.1"
dashmap = "6"
rayon = "1"
serde_json = "1"
