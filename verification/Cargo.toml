[package]
name = "sandbox_pool"
version = "0.1.0"
edition = "2021"
publish = false

[dependencies]
rand = "0.8"
serde = { version = "1", features = ["derive"] }
reqwest = { version = "0.11", default-features = false, features = ["blocking"] }
actix-web = "4"
actix-cors = "0.7"
