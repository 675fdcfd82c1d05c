[package]
name = "hnsw"
version = "0.1.0"
edition = "2021"
publish = false

[dependencies]
arrayvec = "0.7"
index_vec = "0.1"
rkyv = "0.8"
serde = { version = "1", features = ["derive"] }
