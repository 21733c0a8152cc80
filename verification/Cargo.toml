[package]
name = "barq_graphdb"
version = "0.1.0"
edition = "2021"
publish = false

[dependencies]
rand = "0.8"
hnsw_rs = "*"
clap = { version = "4", features = ["derive"] }
anyhow = "1"
