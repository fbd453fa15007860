[package]
name = "service_registry"
version = "0.1.0"
edition = "2021"
publish = false

[dependencies]
chrono = "*"
actix-web = "*"
tokio = { version = "*", features = ["macros", "rt-multi-thread", "sync", "time"] }
