[package]
name = "disjunctive"
version = "0.1.0"
edition = "2021"
publish = false

[dependencies]
petgraph = "*"
highs = "*"
serde = { version = "*", features = ["derive"] }
serde_json = "*"
