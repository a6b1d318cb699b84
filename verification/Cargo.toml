[package]
name = "arbiter_core"
version = "0.1.0"
edition = "2021"
publish = false

[dependencies]
hex = "*"
sha2 = "*"
crossbeam-channel = "*"
async-stream = "*"
futures-util = "*"
polars = { version = "*", default-features = false, features = ["parquet", "csv"] }
