[package]
name = "anywords"
version = "0.1.0"
edition = "2021"
publish = false

[dependencies]
anyhow = "1"
axum = "0.7"
chrono = "0.4"
dirs = "5"
encoding_rs = "0.8"
futures = "0.3"
notify = "6"
reqwest = { version = "0.12", default-features = false, features = ["multipart"] }
serde = { version = "1", features = ["derive"] }
serde_json = "1"
serde_yaml = "0.9"
tantivy = "0.22"
tantivy-jieba = "0.11"
tokio = { version = "1", features = ["full"] }
tracing = "0.1"
tree_magic_mini = "3"
walkdir = "2"
zip = { version = "2", default-features = false, features = ["deflate"] }
