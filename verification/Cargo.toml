[package]
name = "currency_cache"
version = "0.1.0"
edition = "2021"
publish = false

[dependencies]
clap = { version = "*", features = ["derive"] }
reqwest = { version = "*", default-features = false, features = ["blocking"] }
rusqlite = { version = "*", features = ["bundled"] }
rust_decimal = "=1.43.0"
rusty-money = "=0.4.2"
serde = { version = "*", features = ["derive"] }
serde_json = "*"
