[package]
name = "silhouette"
version = "0.1.0"
edition = "2021"
publish = false

[dependencies]
regex = "1"
sha2 = "0.10"
serde_json = "1"
walkdir = "2"
