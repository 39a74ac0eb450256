[package]
name = "transaction_shuffler"
version = "0.1.0"
edition = "2021"
publish = false

[dependencies]
anyhow = "1"
ark-bn254 = "0.4"
ark-ff = "0.4"
gcp-bigquery-client = "0.16.8"
hex = "0.4"
move-core-types = "0.0.3"
serde = { version = "1", features = ["derive"] }
serde_json = "1"
tokio = { version = "1", features = ["rt", "time"] }
