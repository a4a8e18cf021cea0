[package]
name = "ant_colony"
version = "0.1.0"
edition = "2021"
publish = false

[dependencies]
rand = "0.9"
serde = { version = "1", features = ["derive"] }
serde_json = "1"
ron = "*"
dotenvy = "0.15"
ehttp = { version = "0.5", features = ["json"] }
crossbeam-channel = "0.5"
