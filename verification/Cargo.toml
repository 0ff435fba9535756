[package]
name = "compiler_core"
version = "0.1.0"
edition = "2021"
publish = false

[dependencies]
rustc-hash = "=2.1.3"
la-arena = "=0.3.1"
serde = { version = "=1.0.229", features = ["derive"] }
serde_json = "=1.0.154"
rayon = "=1.12.0"
petgraph = "=0.8.3"
indexmap = "=2.14.2"
