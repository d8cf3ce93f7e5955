[package]
name = "file_retrieval_engine"
version = "0.1.0"
edition = "2021"
publish = false

[dependencies]
array-init = "2"
parking_lot = "0.12"
pyo3 = "0.20"
tokio = { version = "1", features = ["rt-multi-thread", "macros", "sync", "time"] }
walkdir = "2"
