[package]
name = "hyperjson"
version = "0.1.0"
edition = "2021"
publish = false

[dependencies]
serde = "1"
serde_json = { version = "1", features = ["arbitrary_precision"] }
pyo3 = { version = "0.22", features = ["abi3-py39"] }
failure = "0.1"
structopt = "0.3"
clap = "2"
