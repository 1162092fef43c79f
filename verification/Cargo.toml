[package]
name = "data_generator"
version = "0.1.0"
edition = "2021"
publish = false

[dependencies]
calamine = "*"
glob = "*"
heck = "*"
serde = { version = "1", features = ["derive"] }
serde_json = "1"
thiserror = "*"
tokio = { version = "1", features = ["rt-multi-thread"] }
