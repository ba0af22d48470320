[package]
name = "shared_secret_server"
version = "0.1.0"
edition = "2021"
publish = false

[dependencies]
rand = "0.8"
serde = { version = "1", features = ["derive"] }
serde_json = "1"
hex = { version = "0.4", features = ["serde"] }
tokio = { version = "1", features = ["full"] }
actix-web = "4"
actix-web-httpauth = "0.8"
riteraft = "*"
async-trait = "0.1"
slog = "2"

[dev-dependencies]
sss-rs = "*"
galois_2p8 = "0.1"
