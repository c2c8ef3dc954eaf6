[package]
name = "ndcopy"
version = "0.1.0"
edition = "2021"
publish = false

[dependencies]
ndshape = "0.2"
criterion = { version = "0.5", default-features = false, features = ["cargo_bench_support"] }
