[package]
name = "redisjson"
version = "0.1.0"
edition = "2021"
publish = false

[dependencies]
serde_json = "=1.0.151"
bson = { version = "=3.1.0", features = ["serde", "serde_json-1"] }
