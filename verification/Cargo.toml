[package]
name = "cooccur_graph"
version = "0.1.0"
edition = "2021"
publish = false

[dependencies]
chrono = { version = "0.4", default-features = false, features = ["std"] }
csv = "1"
itertools = "0.13"
petgraph = "0.6"
serde_json = "1"
