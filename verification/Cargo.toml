[package]
name = "transaction_ids"
version = "0.1.0"
edition = "2021"
publish = false

[dependencies]
async-trait = "0.1"
lru-cache = "0.1.2"
ruma = { version = "*", features = ["federation-api"] }
tokio = { version = "1", features = ["sync"] }

[dev-dependencies]
