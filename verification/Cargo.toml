[package]
name = "rango"
version = "0.1.0"
edition = "2021"
publish = false

[dependencies]
bson = "*"
serde_json = "1"
uuid = { version = "1", features = ["v4", "v7"] }
axum = "*"
tokio = { version = "1", features = ["full"] }
clap = { version = "4", features = ["derive"] }
anyhow = "1"
rand = "0.8"
