[package]
name = "hallway"
version = "0.1.0"
edition = "2021"
publish = false

[dependencies]
regex = "=1.13.1"
serde = { version = "=1.0.229", features = ["derive"] }
serde_json = "=1.0.154"
actix-web = { version = "=4.18.1", default-features = false, features = ["macros"] }
actix-files = "=0.6.10"
actix-multipart = "=0.7.2"
tokio = { version = "=1.54.1", features = ["fs"] }
shuttle-actix-web = "=0.57.0"
shuttle-runtime = "=0.57.0"
