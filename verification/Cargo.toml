[package]
name = "sui_kvstore"
version = "0.1.0"
edition = "2021"
publish = false

[dependencies]
anyhow = "1"
async-trait = "0.1"
bcs = "0.1"
bytes = "1"
futures = "0.3"
roaring = "*"
scoped-futures = "0.1"
tokio = { version = "1", features = ["sync", "macros", "rt"] }
tonic = { version = "*", default-features = false }
tracing = "0.1"
