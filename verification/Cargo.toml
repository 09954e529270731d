[package]
name = "model_gateway"
version = "0.1.0"
edition = "2021"
publish = false

[dependencies]
async-trait = "0.1"
axum = "0.8"
regex = "1"
serde_json = "1"
sha2 = "0.10"
