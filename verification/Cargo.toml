[package]
name = "pdf-template-core"
version = "0.1.0"
edition = "2021"
publish = false

[dependencies]
encoding_rs = "0.8"
lopdf = "0.32"
serde = { version = "1", features = ["derive"] }
serde_json = "1"
thiserror = "1"
napi = "2"
napi-derive = "2"
